//! Peer identities and a small table keyed by them.
use vstd::prelude::*;

verus! {

/// Lexicographic order on byte strings: a proper prefix comes first.
pub open spec fn lex_lt(a: Seq<u8>, b: Seq<u8>) -> bool
    decreases a.len(),
{
    if a.len() == 0 {
        b.len() > 0
    } else if b.len() == 0 {
        false
    } else if a[0] != b[0] {
        a[0] < b[0]
    } else {
        lex_lt(a.drop_first(), b.drop_first())
    }
}

/// No two byte strings each come before the other.
pub proof fn lemma_lex_lt_asymmetric(a: Seq<u8>, b: Seq<u8>)
    ensures
        !(lex_lt(a, b) && lex_lt(b, a)),
    decreases a.len(),
{
    if a.len() > 0 && b.len() > 0 && a[0] == b[0] {
        lemma_lex_lt_asymmetric(a.drop_first(), b.drop_first());
    }
}

/// Of two different byte strings, one comes before the other.
pub proof fn lemma_lex_lt_total(a: Seq<u8>, b: Seq<u8>)
    requires
        a != b,
    ensures
        lex_lt(a, b) || lex_lt(b, a),
    decreases a.len(),
{
    if a.len() == 0 {
        assert(b.len() > 0) by {
            if b.len() == 0 {
                assert(a =~= b);
            }
        }
    } else if b.len() > 0 && a[0] == b[0] {
        assert(a.drop_first() != b.drop_first()) by {
            if a.drop_first() == b.drop_first() {
                assert(a =~= seq![a[0]] + a.drop_first());
                assert(b =~= seq![b[0]] + b.drop_first());
            }
        }
        lemma_lex_lt_total(a.drop_first(), b.drop_first());
    }
}

/// Whether two byte strings are equal.
pub fn bytes_equal(a: &Vec<u8>, b: &Vec<u8>) -> (r: bool)
    ensures
        r == (a@ == b@),
{
    let n = a.len();
    if n != b.len() {
        return false;
    }
    let mut i: usize = 0;
    while i < n
        invariant
            n == a@.len(),
            n == b@.len(),
            0 <= i <= n,
            forall|j: int| 0 <= j < i ==> a@[j] == b@[j],
        decreases n - i,
    {
        if a[i] != b[i] {
            return false;
        }
        i = i + 1;
    }
    proof {
        assert(a@ =~= b@);
    }
    true
}

/// Whether byte string `a` comes strictly before `b`.
pub fn bytes_precede(a: &Vec<u8>, b: &Vec<u8>) -> (r: bool)
    ensures
        r == lex_lt(a@, b@),
{
    let mut i: usize = 0;
    proof {
        assert(a@.skip(0) =~= a@);
        assert(b@.skip(0) =~= b@);
    }
    while i < a.len() && i < b.len()
        invariant
            0 <= i <= a@.len(),
            i <= b@.len(),
            lex_lt(a@, b@) == lex_lt(a@.skip(i as int), b@.skip(i as int)),
        decreases a@.len() - i,
    {
        assert(a@.skip(i as int).len() > 0 && b@.skip(i as int).len() > 0);
        assert(a@.skip(i as int)[0] == a@[i as int]);
        assert(b@.skip(i as int)[0] == b@[i as int]);
        if a[i] != b[i] {
            return a[i] < b[i];
        }
        proof {
            assert(a@.skip(i as int).drop_first() =~= a@.skip(i + 1));
            assert(b@.skip(i as int).drop_first() =~= b@.skip(i + 1));
        }
        i = i + 1;
    }
    assert(a@.skip(i as int).len() == a@.len() - i);
    assert(b@.skip(i as int).len() == b@.len() - i);
    i < b.len()
}

/// The opaque byte identifier of a remote peer, taken from its transport session.
#[derive(Clone, Debug, PartialEq, Eq, Hash)]
pub struct PeerCert {
    bytes: Vec<u8>,
}

impl View for PeerCert {
    type V = Seq<u8>;

    closed spec fn view(&self) -> Seq<u8> {
        self.bytes@
    }
}

impl PeerCert {
    pub fn new(bytes: Vec<u8>) -> (r: PeerCert)
        ensures
            r@ == bytes@,
    {
        PeerCert { bytes }
    }

    pub fn as_bytes(&self) -> (r: &Vec<u8>)
        ensures
            r@ == self@,
    {
        &self.bytes
    }

    /// A second certificate with the same bytes.
    pub fn duplicate(&self) -> (r: PeerCert)
        ensures
            r@ == self@,
    {
        let bytes = self.bytes.clone();
        proof {
            assert(bytes@ =~= self.bytes@);
        }
        PeerCert { bytes }
    }

    /// Whether both certificates hold the same bytes.
    pub fn same_as(&self, other: &PeerCert) -> (r: bool)
        ensures
            r == (self@ == other@),
    {
        bytes_equal(&self.bytes, &other.bytes)
    }

    /// Whether this certificate comes strictly before `other` in byte order.
    pub fn precedes(&self, other: &PeerCert) -> (r: bool)
        ensures
            r == lex_lt(self@, other@),
    {
        bytes_precede(&self.bytes, &other.bytes)
    }
}

/// A table from peer certificates to values, holding at most one value per certificate.
pub struct CertTable<T> {
    keys: Vec<PeerCert>,
    vals: Vec<T>,
}

impl<T> View for CertTable<T> {
    type V = Map<Seq<u8>, T>;

    closed spec fn view(&self) -> Map<Seq<u8>, T> {
        Map::new(|k: Seq<u8>| self.key_seq().contains(k), |k: Seq<u8>| self.vals@[self.slot(k)])
    }
}

impl<T> CertTable<T> {
    /// The certificates in the order in which the table stores them.
    pub closed spec fn key_seq(&self) -> Seq<Seq<u8>> {
        self.keys@.map_values(|c: PeerCert| c@)
    }

    pub closed spec fn slot(&self, k: Seq<u8>) -> int {
        choose|i: int| 0 <= i < self.key_seq().len() && self.key_seq()[i] == k
    }

    /// One value per certificate, stored side by side.
    pub closed spec fn wf(&self) -> bool {
        &&& self.keys@.len() == self.vals@.len()
        &&& self.key_seq().no_duplicates()
    }

    proof fn lemma_slot(&self, i: int)
        requires
            self.wf(),
            0 <= i < self.keys@.len(),
        ensures
            self.slot(self.key_seq()[i]) == i,
            self@.contains_key(self.key_seq()[i]),
            self@[self.key_seq()[i]] == self.vals@[i],
    {
        let k = self.key_seq()[i];
        assert(self.key_seq().contains(k));
        let j = self.slot(k);
        assert(0 <= j < self.key_seq().len() && self.key_seq()[j] == k);
    }

    /// Each certificate of the table is stored exactly once.
    pub proof fn lemma_stored_once(&self, k: Seq<u8>)
        requires
            self.wf(),
            self@.contains_key(k),
        ensures
            exists|i: int|
                0 <= i < self.key_seq().len() && self.key_seq()[i] == k && forall|j: int|
                    0 <= j < self.key_seq().len() && #[trigger] self.key_seq()[j] == k ==> j == i,
    {
        let i = self.slot(k);
        assert(0 <= i < self.key_seq().len() && self.key_seq()[i] == k);
    }

    pub fn new() -> (r: CertTable<T>)
        ensures
            r.wf(),
            r@ == Map::<Seq<u8>, T>::empty(),
    {
        let r = CertTable { keys: Vec::new(), vals: Vec::new() };
        proof {
            assert(r.key_seq() =~= Seq::<Seq<u8>>::empty());
            assert(r@ =~= Map::<Seq<u8>, T>::empty());
        }
        r
    }

    /// Number of certificates in the table.
    pub fn len(&self) -> (r: usize)
        requires
            self.wf(),
        ensures
            r == self@.dom().len(),
    {
        proof {
            assert(self@.dom() =~= self.key_seq().to_set());
            self.key_seq().unique_seq_to_set();
        }
        self.keys.len()
    }

    fn find(&self, key: &PeerCert) -> (r: Option<usize>)
        requires
            self.wf(),
        ensures
            match r {
                Some(i) => i < self.keys@.len() && self.key_seq()[i as int] == key@,
                None => !self@.contains_key(key@),
            },
    {
        let mut i: usize = 0;
        while i < self.keys.len()
            invariant
                self.wf(),
                0 <= i <= self.keys@.len(),
                forall|j: int| 0 <= j < i ==> self.key_seq()[j] != key@,
            decreases self.keys@.len() - i,
        {
            if self.keys[i].same_as(key) {
                return Some(i);
            }
            i = i + 1;
        }
        None
    }

    pub fn contains_key(&self, key: &PeerCert) -> (r: bool)
        requires
            self.wf(),
        ensures
            r == self@.contains_key(key@),
    {
        match self.find(key) {
            Some(i) => {
                proof {
                    self.lemma_slot(i as int);
                }
                true
            },
            None => false,
        }
    }

    pub fn get(&self, key: &PeerCert) -> (r: Option<&T>)
        requires
            self.wf(),
        ensures
            match r {
                Some(v) => self@.contains_key(key@) && *v == self@[key@],
                None => !self@.contains_key(key@),
            },
    {
        match self.find(key) {
            Some(i) => {
                proof {
                    self.lemma_slot(i as int);
                }
                Some(&self.vals[i])
            },
            None => None,
        }
    }

    /// Sets the value of `key`, replacing any value it had.
    pub fn insert(&mut self, key: PeerCert, value: T)
        requires
            old(self).wf(),
        ensures
            final(self).wf(),
            final(self)@ == old(self)@.insert(key@, value),
    {
        match self.find(&key) {
            Some(i) => {
                proof {
                    self.lemma_slot(i as int);
                }
                self.vals.set(i, value);
                proof {
                    assert(self.key_seq() =~= old(self).key_seq());
                    assert forall|k: Seq<u8>| #[trigger] self@.contains_key(k) && k != key@ implies
                        self@[k] == old(self)@[k] by {
                        let j = self.slot(k);
                        old(self).lemma_slot(j);
                    }
                    assert(self@ =~= old(self)@.insert(key@, value));
                }
            },
            None => {
                let ghost ks = self.key_seq();
                self.keys.push(key);
                self.vals.push(value);
                proof {
                    assert(self.key_seq() =~= ks.push(key@));
                    assert(!ks.contains(key@));
                    assert(self.key_seq().no_duplicates()) by {
                        assert forall|a: int, b: int|
                            0 <= a < b < self.key_seq().len() implies self.key_seq()[a]
                            != self.key_seq()[b] by {
                            if b == ks.len() {
                                assert(ks[a] == self.key_seq()[a]);
                            }
                        }
                    }
                    let n = ks.len() as int;
                    self.lemma_slot(n);
                    assert forall|k: Seq<u8>| #[trigger] self@.contains_key(k) && k != key@ implies
                        old(self)@.contains_key(k) && self@[k] == old(self)@[k] by {
                        let j = self.slot(k);
                        assert(j != n);
                        assert(ks[j] == k);
                        old(self).lemma_slot(j);
                    }
                    assert forall|k: Seq<u8>| #[trigger] old(self)@.contains_key(k) implies
                        self@.contains_key(k) by {
                        let j = old(self).slot(k);
                        assert(self.key_seq()[j] == k);
                    }
                    assert(self@ =~= old(self)@.insert(key@, value));
                }
            },
        }
    }

    /// Takes the value of `key` out of the table.
    pub fn remove(&mut self, key: &PeerCert) -> (r: Option<T>)
        requires
            old(self).wf(),
        ensures
            final(self).wf(),
            final(self)@ == old(self)@.remove(key@),
            match r {
                Some(v) => old(self)@.contains_key(key@) && v == old(self)@[key@],
                None => !old(self)@.contains_key(key@),
            },
    {
        match self.find(key) {
            Some(i) => {
                proof {
                    self.lemma_slot(i as int);
                }
                let ghost ks = self.key_seq();
                self.keys.remove(i);
                let v = self.vals.remove(i);
                proof {
                    assert(self.key_seq() =~= ks.remove(i as int));
                    assert forall|a: int, b: int|
                        0 <= a < b < self.key_seq().len() implies self.key_seq()[a]
                        != self.key_seq()[b] by {
                        let a2 = if a < i { a } else { a + 1 };
                        let b2 = if b < i { b } else { b + 1 };
                        assert(self.key_seq()[a] == ks[a2]);
                        assert(self.key_seq()[b] == ks[b2]);
                    }
                    assert forall|k: Seq<u8>| #[trigger] self@.contains_key(k) implies k != key@
                        && old(self)@.contains_key(k) && self@[k] == old(self)@[k] by {
                        let j = self.slot(k);
                        let j2 = if j < i { j } else { j + 1 };
                        assert(ks[j2] == k);
                        old(self).lemma_slot(j2);
                    }
                    assert forall|k: Seq<u8>| #[trigger] old(self)@.contains_key(k) && k != key@
                        implies self@.contains_key(k) by {
                        let j = old(self).slot(k);
                        assert(j != i);
                        let j2 = if j < i { j } else { j - 1 };
                        assert(self.key_seq()[j2] == k);
                    }
                    assert(self@ =~= old(self)@.remove(key@));
                }
                Some(v)
            },
            None => {
                proof {
                    assert(self@ =~= old(self)@.remove(key@));
                }
                None
            },
        }
    }

    /// The certificates of the table, each once.
    pub fn keys(&self) -> (r: Vec<PeerCert>)
        requires
            self.wf(),
        ensures
            r@.map_values(|c: PeerCert| c@) == self.key_seq(),
            self.key_seq().no_duplicates(),
            forall|k: Seq<u8>| self@.contains_key(k) <==> self.key_seq().contains(k),
    {
        let mut out: Vec<PeerCert> = Vec::new();
        let mut i: usize = 0;
        while i < self.keys.len()
            invariant
                0 <= i <= self.keys@.len(),
                out@.map_values(|c: PeerCert| c@) == self.key_seq().take(i as int),
            decreases self.keys@.len() - i,
        {
            let c = self.keys[i].duplicate();
            let ghost before = out@;
            out.push(c);
            proof {
                assert(out@.map_values(|c: PeerCert| c@) =~= before.map_values(|c: PeerCert| c@).push(c@));
                assert(self.key_seq().take(i + 1) =~= self.key_seq().take(i as int).push(c@));
            }
            i = i + 1;
        }
        proof {
            assert(self.key_seq().take(i as int) =~= self.key_seq());
        }
        out
    }
}


} // verus!
