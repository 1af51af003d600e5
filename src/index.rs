use vstd::prelude::*;
use crate::log_record::LogRecordPos;

verus! {

/// An in-memory map from key to the position of that key's latest record.
pub trait Indexer: Sized {
    /// What the index maps each key to.
    spec fn index_map(&self) -> Map<Seq<u8>, LogRecordPos>;

    /// The index's internal invariant.
    spec fn inv(&self) -> bool;

    /// Whether `put` always succeeds, as it does on an in-memory index.
    spec fn infallible(&self) -> bool;

    /// Maps `key` to `pos`. On `false` the index is unchanged.
    fn put(&mut self, key: Vec<u8>, pos: LogRecordPos) -> (r: bool)
        requires
            old(self).inv(),
        ensures
            final(self).inv(),
            final(self).infallible() == old(self).infallible(),
            old(self).infallible() ==> r,
            r ==> final(self).index_map() == old(self).index_map().insert(key@, pos),
            !r ==> final(self).index_map() == old(self).index_map(),
    ;

    /// The position that `key` maps to, if any.
    fn get(&self, key: &[u8]) -> (r: Option<LogRecordPos>)
        requires
            self.inv(),
        ensures
            r == (if self.index_map().contains_key(key@) {
                Some(self.index_map()[key@])
            } else {
                None::<LogRecordPos>
            }),
    ;

    /// Removes `key`; `true` iff it was present.
    fn delete(&mut self, key: &[u8]) -> (r: bool)
        requires
            old(self).inv(),
        ensures
            final(self).inv(),
            final(self).infallible() == old(self).infallible(),
            final(self).index_map() == old(self).index_map().remove(key@),
            r == old(self).index_map().contains_key(key@),
    ;
}

/// Whether two byte strings are equal.
pub fn bytes_eq(a: &[u8], b: &[u8]) -> (r: bool)
    ensures
        r == (a@ == b@),
{
    if a.len() != b.len() {
        return false;
    }
    let mut i: usize = 0;
    while i < a.len()
        invariant
            a@.len() == b@.len(),
            i <= a@.len(),
            forall|j: int| 0 <= j < i ==> a@[j] == b@[j],
        decreases a@.len() - i,
    {
        if a[i] != b[i] {
            return false;
        }
        i = i + 1;
    }
    proof {
        assert(a@ =~= b@);
    }
    true
}

/// Byte-lexicographic order: `a` comes before `b`.
pub open spec fn lex_lt(a: Seq<u8>, b: Seq<u8>) -> bool
    decreases a.len(),
{
    if b.len() == 0 {
        false
    } else if a.len() == 0 {
        true
    } else if a[0] != b[0] {
        a[0] < b[0]
    } else {
        lex_lt(a.drop_first(), b.drop_first())
    }
}

proof fn lemma_lex_irreflexive(a: Seq<u8>)
    ensures
        !lex_lt(a, a),
    decreases a.len(),
{
    if a.len() > 0 {
        lemma_lex_irreflexive(a.drop_first());
    }
}

proof fn lemma_lex_transitive(a: Seq<u8>, b: Seq<u8>, c: Seq<u8>)
    requires
        lex_lt(a, b),
        lex_lt(b, c),
    ensures
        lex_lt(a, c),
    decreases a.len(),
{
    if a.len() > 0 && b.len() > 0 && c.len() > 0 && a[0] == b[0] && b[0] == c[0] {
        lemma_lex_transitive(a.drop_first(), b.drop_first(), c.drop_first());
    }
}

proof fn lemma_lex_total(a: Seq<u8>, b: Seq<u8>)
    requires
        a != b,
    ensures
        lex_lt(a, b) || lex_lt(b, a),
    decreases a.len(),
{
    if a.len() > 0 && b.len() > 0 && a[0] == b[0] {
        if a.drop_first() == b.drop_first() {
            assert(a =~= seq![a[0]] + a.drop_first());
            assert(b =~= seq![b[0]] + b.drop_first());
        }
        lemma_lex_total(a.drop_first(), b.drop_first());
    } else if a.len() == 0 && b.len() == 0 {
        assert(a =~= b);
    }
}

/// Whether `a` comes before `b` in byte-lexicographic order, comparing from
/// place `i` on.
fn lex_less_from(a: &[u8], b: &[u8], i: usize) -> (r: bool)
    requires
        i <= a@.len(),
        i <= b@.len(),
    ensures
        r == lex_lt(
            a@.subrange(i as int, a@.len() as int),
            b@.subrange(i as int, b@.len() as int),
        ),
    decreases a@.len() - i,
{
    let ghost sa = a@.subrange(i as int, a@.len() as int);
    let ghost sb = b@.subrange(i as int, b@.len() as int);
    if i == b.len() {
        return false;
    }
    if i == a.len() {
        return true;
    }
    if a[i] != b[i] {
        return a[i] < b[i];
    }
    proof {
        assert(sa.drop_first() =~= a@.subrange(i + 1, a@.len() as int));
        assert(sb.drop_first() =~= b@.subrange(i + 1, b@.len() as int));
    }
    lex_less_from(a, b, i + 1)
}

/// Whether `a` comes before `b` in byte-lexicographic order.
pub fn lex_less(a: &[u8], b: &[u8]) -> (r: bool)
    ensures
        r == lex_lt(a@, b@),
{
    proof {
        assert(a@.subrange(0, a@.len() as int) =~= a@);
        assert(b@.subrange(0, b@.len() as int) =~= b@);
    }
    lex_less_from(a, b, 0)
}

/// The index: keys in byte-lexicographic order, each once, beside their
/// positions; lookups search by halving. The keys are byte strings, and vstd's
/// specification of `BTreeMap` models the order and equality of keys such as
/// integers, not of `Vec<u8>`: so the order is kept here, in vectors, where it
/// is proved.
pub struct BTree {
    keys: Vec<Vec<u8>>,
    positions: Vec<LogRecordPos>,
    map: Ghost<Map<Seq<u8>, LogRecordPos>>,
}

impl BTree {
    /// An empty index.
    pub fn new() -> (r: BTree)
        ensures
            r.inv(),
            r.index_map() == Map::<Seq<u8>, LogRecordPos>::empty(),
    {
        BTree { keys: Vec::new(), positions: Vec::new(), map: Ghost(Map::empty()) }
    }

    /// The indexed keys, in ascending byte-lexicographic order.
    pub fn keys(&self) -> (r: Vec<Vec<u8>>)
        requires
            self.inv(),
        ensures
            forall|i: int, j: int| 0 <= i < j < r@.len() ==> lex_lt(#[trigger] r@[i]@, #[trigger] r@[j]@),
            forall|i: int| 0 <= i < r@.len() ==> self.index_map().contains_key(#[trigger] r@[i]@),
            forall|k: Seq<u8>| #[trigger] self.index_map().contains_key(k) ==> exists|i: int|
                0 <= i < r@.len() && #[trigger] r@[i]@ == k,
    {
        let mut r: Vec<Vec<u8>> = Vec::new();
        let mut i: usize = 0;
        while i < self.keys.len()
            invariant
                self.inv(),
                i <= self.keys@.len(),
                r@.len() == i,
                forall|j: int| 0 <= j < i ==> (#[trigger] r@[j])@ == self.keys@[j]@,
            decreases self.keys@.len() - i,
        {
            r.push(self.keys[i].clone());
            i = i + 1;
        }
        proof {
            assert forall|a: int, b: int| 0 <= a < b < r@.len() implies lex_lt(#[trigger] r@[a]@, #[trigger] r@[b]@) by {
                assert(r@[a]@ == self.keys@[a]@ && r@[b]@ == self.keys@[b]@);
            }
            assert forall|a: int| 0 <= a < r@.len() implies self.index_map().contains_key(#[trigger] r@[a]@) by {
                assert(r@[a]@ == self.keys@[a]@);
            }
            assert forall|k: Seq<u8>| #[trigger] self.index_map().contains_key(k) implies exists|a: int|
                0 <= a < r@.len() && #[trigger] r@[a]@ == k by {
                let a = choose|a: int| 0 <= a < self.keys@.len() && #[trigger] self.keys@[a]@ == k;
                assert(r@[a]@ == k);
            }
        }
        r
    }

    /// Where `key` stands among the keys (`Ok`), or where it would stand (`Err`).
    fn find(&self, key: &[u8]) -> (r: Result<usize, usize>)
        requires
            self.inv(),
        ensures
            match r {
                Ok(i) => i < self.keys@.len() && self.keys@[i as int]@ == key@,
                Err(i) => i <= self.keys@.len() && !self.map@.contains_key(key@)
                    && (forall|j: int| 0 <= j < i ==> lex_lt(#[trigger] self.keys@[j]@, key@))
                    && (forall|j: int| i <= j < self.keys@.len() ==> lex_lt(key@, #[trigger] self.keys@[j]@)),
            },
    {
        let mut lo: usize = 0;
        let mut hi: usize = self.keys.len();
        while lo < hi
            invariant
                self.inv(),
                lo <= hi <= self.keys@.len(),
                forall|j: int| 0 <= j < lo ==> lex_lt(#[trigger] self.keys@[j]@, key@),
                forall|j: int| hi <= j < self.keys@.len() ==> lex_lt(key@, #[trigger] self.keys@[j]@),
            decreases hi - lo,
        {
            let mid = lo + (hi - lo) / 2;
            if bytes_eq(self.keys[mid].as_slice(), key) {
                return Ok(mid);
            }
            if lex_less(self.keys[mid].as_slice(), key) {
                proof {
                    assert forall|j: int| 0 <= j <= mid implies lex_lt(#[trigger] self.keys@[j]@, key@) by {
                        if j < mid {
                            lemma_lex_transitive(self.keys@[j]@, self.keys@[mid as int]@, key@);
                        }
                    }
                }
                lo = mid + 1;
            } else {
                proof {
                    lemma_lex_total(self.keys@[mid as int]@, key@);
                    assert forall|j: int| mid <= j < self.keys@.len() implies lex_lt(key@, #[trigger] self.keys@[j]@) by {
                        if j > mid {
                            lemma_lex_transitive(key@, self.keys@[mid as int]@, self.keys@[j]@);
                        }
                    }
                }
                hi = mid;
            }
        }
        proof {
            if self.map@.contains_key(key@) {
                let j = choose|j: int| 0 <= j < self.keys@.len() && #[trigger] self.keys@[j]@ == key@;
                lemma_lex_irreflexive(key@);
            }
        }
        Err(lo)
    }
}

impl Indexer for BTree {
    closed spec fn index_map(&self) -> Map<Seq<u8>, LogRecordPos> {
        self.map@
    }

    open spec fn infallible(&self) -> bool {
        true
    }

    closed spec fn inv(&self) -> bool {
        &&& self.keys@.len() == self.positions@.len()
        &&& forall|i: int|
            0 <= i < self.keys@.len() ==> self.map@.contains_key(#[trigger] self.keys@[i]@)
                && self.map@[self.keys@[i]@] == self.positions@[i]
        &&& forall|k: Seq<u8>|
            #[trigger] self.map@.contains_key(k) ==> exists|i: int|
                0 <= i < self.keys@.len() && #[trigger] self.keys@[i]@ == k
        &&& forall|i: int, j: int|
            0 <= i < j < self.keys@.len() ==> lex_lt(#[trigger] self.keys@[i]@, #[trigger] self.keys@[j]@)
    }

    fn put(&mut self, key: Vec<u8>, pos: LogRecordPos) -> (r: bool) {
        let ghost k = key@;
        let ghost ok = self.keys@;
        let ghost op = self.positions@;
        let ghost om = self.map@;
        proof {
            lemma_lex_irreflexive(k);
        }
        match self.find(key.as_slice()) {
            Ok(i) => {
                self.positions.set(i, pos);
                self.map = Ghost(self.map@.insert(k, pos));
                proof {
                    assert forall|j: int| 0 <= j < self.keys@.len() implies self.map@.contains_key(
                        #[trigger] self.keys@[j]@,
                    ) && self.map@[self.keys@[j]@] == self.positions@[j] by {
                        if j < i {
                            assert(lex_lt(ok[j]@, ok[i as int]@));
                        } else if j > i {
                            assert(lex_lt(ok[i as int]@, ok[j]@));
                        }
                    }
                    assert forall|kk: Seq<u8>| #[trigger] self.map@.contains_key(kk) implies exists|
                        j: int,
                    | 0 <= j < self.keys@.len() && #[trigger] self.keys@[j]@ == kk by {
                        if kk == k {
                            assert(self.keys@[i as int]@ == kk);
                        } else {
                            assert(om.contains_key(kk));
                            let oj = choose|j: int| 0 <= j < ok.len() && #[trigger] ok[j]@ == kk;
                            assert(self.keys@[oj] == ok[oj]);
                        }
                    }
                }
            },
            Err(i) => {
                self.keys.insert(i, key);
                self.positions.insert(i, pos);
                self.map = Ghost(self.map@.insert(k, pos));
                proof {
                    assert(self.keys@[i as int]@ == k);
                    assert forall|j: int| 0 <= j < self.keys@.len() implies self.map@.contains_key(
                        #[trigger] self.keys@[j]@,
                    ) && self.map@[self.keys@[j]@] == self.positions@[j] by {
                        if j < i {
                            assert(self.keys@[j] == ok[j] && self.positions@[j] == op[j]);
                            assert(lex_lt(ok[j]@, k));
                            assert(om.contains_key(ok[j]@));
                        } else if j > i {
                            assert(self.keys@[j] == ok[j - 1] && self.positions@[j] == op[j - 1]);
                            assert(lex_lt(k, ok[j - 1]@));
                            assert(om.contains_key(ok[j - 1]@));
                        }
                    }
                    assert forall|kk: Seq<u8>| #[trigger] self.map@.contains_key(kk) implies exists|
                        j: int,
                    | 0 <= j < self.keys@.len() && #[trigger] self.keys@[j]@ == kk by {
                        if kk == k {
                            assert(self.keys@[i as int]@ == kk);
                        } else {
                            assert(om.contains_key(kk));
                            let oj = choose|j: int| 0 <= j < ok.len() && #[trigger] ok[j]@ == kk;
                            if oj < i {
                                assert(self.keys@[oj] == ok[oj]);
                            } else {
                                assert(self.keys@[oj + 1] == ok[oj]);
                            }
                        }
                    }
                    assert forall|a: int, b: int|
                        0 <= a < b < self.keys@.len() implies lex_lt(
                        #[trigger] self.keys@[a]@,
                        #[trigger] self.keys@[b]@,
                    ) by {
                        if b < i {
                            assert(self.keys@[a] == ok[a] && self.keys@[b] == ok[b]);
                        } else if b == i {
                            assert(self.keys@[a] == ok[a]);
                        } else if a > i {
                            assert(self.keys@[a] == ok[a - 1] && self.keys@[b] == ok[b - 1]);
                        } else if a == i {
                            assert(self.keys@[b] == ok[b - 1]);
                        } else {
                            assert(self.keys@[a] == ok[a] && self.keys@[b] == ok[b - 1]);
                            assert(a < b - 1 || a == b - 1);
                            if a < b - 1 {
                                assert(lex_lt(ok[a]@, ok[b - 1]@));
                            } else {
                                assert(lex_lt(ok[a]@, k));
                                assert(lex_lt(k, ok[b - 1]@));
                                lemma_lex_transitive(ok[a]@, k, ok[b - 1]@);
                            }
                        }
                    }
                }
            },
        }
        true
    }

    fn get(&self, key: &[u8]) -> (r: Option<LogRecordPos>) {
        match self.find(key) {
            Ok(i) => Some(self.positions[i]),
            Err(_) => None,
        }
    }

    fn delete(&mut self, key: &[u8]) -> (r: bool) {
        let ghost ok = self.keys@;
        let ghost om = self.map@;
        proof {
            lemma_lex_irreflexive(key@);
        }
        match self.find(key) {
            Ok(i) => {
                let ghost k = key@;
                self.keys.remove(i);
                self.positions.remove(i);
                self.map = Ghost(self.map@.remove(k));
                proof {
                    assert forall|j: int| 0 <= j < self.keys@.len() implies self.map@.contains_key(
                        #[trigger] self.keys@[j]@,
                    ) && self.map@[self.keys@[j]@] == self.positions@[j] by {
                        let oj = if j < i { j } else { j + 1 };
                        assert(self.keys@[j] == ok[oj]);
                        if oj < i {
                            assert(lex_lt(ok[oj]@, ok[i as int]@));
                        } else {
                            assert(lex_lt(ok[i as int]@, ok[oj]@));
                        }
                    }
                    assert forall|kk: Seq<u8>| #[trigger] self.map@.contains_key(kk) implies exists|
                        j: int,
                    | 0 <= j < self.keys@.len() && #[trigger] self.keys@[j]@ == kk by {
                        assert(om.contains_key(kk));
                        let oj = choose|j: int| 0 <= j < ok.len() && #[trigger] ok[j]@ == kk;
                        assert(oj != i);
                        let j = if oj < i { oj } else { oj - 1 };
                        assert(self.keys@[j] == ok[oj]);
                    }
                    assert forall|a: int, b: int|
                        0 <= a < b < self.keys@.len() implies lex_lt(
                        #[trigger] self.keys@[a]@,
                        #[trigger] self.keys@[b]@,
                    ) by {
                        let oa = if a < i { a } else { a + 1 };
                        let ob = if b < i { b } else { b + 1 };
                        assert(self.keys@[a] == ok[oa]);
                        assert(self.keys@[b] == ok[ob]);
                        assert(lex_lt(ok[oa]@, ok[ob]@));
                    }
                }
                true
            },
            Err(_) => {
                proof {
                    assert(self.map@.remove(key@) =~= self.map@);
                }
                false
            },
        }
    }
}

} // verus!
