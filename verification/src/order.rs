//! The order in which stations are reported: by name, byte by byte.
use vstd::prelude::*;
use crate::table::{SLOTS, Table};

verus! {

/// `a` comes before `b` in byte-wise lexicographic order (a proper prefix
/// comes first).
pub open spec fn bytes_lt(a: Seq<u8>, b: Seq<u8>) -> bool
    decreases a.len(),
{
    if a.len() == 0 {
        b.len() > 0
    } else if b.len() == 0 {
        false
    } else if a[0] != b[0] {
        a[0] < b[0]
    } else {
        bytes_lt(a.drop_first(), b.drop_first())
    }
}

/// No name comes before itself, and of two names one comes before the
/// other unless they are equal.
pub proof fn lemma_bytes_lt_total(a: Seq<u8>, b: Seq<u8>)
    ensures
        !bytes_lt(a, a),
        a != b ==> (bytes_lt(a, b) || bytes_lt(b, a)),
        !(bytes_lt(a, b) && bytes_lt(b, a)),
    decreases a.len(),
{
    if a.len() > 0 && b.len() > 0 {
        lemma_bytes_lt_total(a.drop_first(), b.drop_first());
        if a[0] == b[0] {
            assert(bytes_lt(a, b) == bytes_lt(a.drop_first(), b.drop_first()));
            assert(bytes_lt(b, a) == bytes_lt(b.drop_first(), a.drop_first()));
        }
        if a[0] == b[0] && a != b {
            assert(a.drop_first() != b.drop_first()) by {
                if a.drop_first() == b.drop_first() {
                    assert(a =~= seq![a[0]] + a.drop_first());
                    assert(b =~= seq![b[0]] + b.drop_first());
                }
            }
        }
    }
    if a.len() > 0 {
        lemma_bytes_lt_total(a.drop_first(), a.drop_first());
    }
    if a.len() == 0 && b.len() == 0 {
        assert(a =~= b);
    }
}

/// Names compare at their first differing byte, as unsigned values
/// `0..=255`; when one name is a prefix of the other, the shorter comes
/// first.
pub proof fn lemma_bytes_lt_first_difference(a: Seq<u8>, b: Seq<u8>, i: int)
    requires
        0 <= i <= a.len(),
        i <= b.len(),
        forall|j: int| 0 <= j < i ==> a[j] == b[j],
    ensures
        i < a.len() && i < b.len() && a[i] != b[i] ==> (bytes_lt(a, b) <==> (a[i] as int) < (b[i] as int)),
        i == a.len() ==> (bytes_lt(a, b) <==> i < b.len()),
        i == b.len() && i < a.len() ==> !bytes_lt(a, b),
    decreases i,
{
    if i > 0 {
        let a1 = a.drop_first();
        let b1 = b.drop_first();
        assert forall|j: int| 0 <= j < i - 1 implies a1[j] == b1[j] by {
            assert(a[j + 1] == b[j + 1]);
        }
        lemma_bytes_lt_first_difference(a1, b1, i - 1);
        assert(a[0] == b[0]);
        assert(bytes_lt(a, b) == bytes_lt(a1, b1));
        if i < a.len() && i < b.len() {
            assert(a1[i - 1] == a[i] && b1[i - 1] == b[i]);
        }
    }
}

/// The order is transitive.
pub proof fn lemma_bytes_lt_trans(a: Seq<u8>, b: Seq<u8>, c: Seq<u8>)
    requires
        bytes_lt(a, b),
        bytes_lt(b, c),
    ensures
        bytes_lt(a, c),
    decreases a.len(),
{
    if a.len() > 0 && b.len() > 0 && c.len() > 0 {
        if a[0] == b[0] && b[0] == c[0] {
            lemma_bytes_lt_trans(a.drop_first(), b.drop_first(), c.drop_first());
        }
    }
}

/// Whether `a` comes before `b`.
pub fn name_less(a: &[u8], b: &[u8]) -> (r: bool)
    ensures
        r == bytes_lt(a@, b@),
{
    let mut i: usize = 0;
    assert(a@.subrange(0, a@.len() as int) =~= a@);
    assert(b@.subrange(0, b@.len() as int) =~= b@);
    while i < a.len() && i < b.len() && a[i] == b[i]
        invariant
            i <= a@.len(),
            i <= b@.len(),
            bytes_lt(a@, b@) == bytes_lt(
                a@.subrange(i as int, a@.len() as int),
                b@.subrange(i as int, b@.len() as int),
            ),
        decreases a@.len() - i,
    {
        proof {
            let sa = a@.subrange(i as int, a@.len() as int);
            let sb = b@.subrange(i as int, b@.len() as int);
            assert(sa.drop_first() =~= a@.subrange(i + 1, a@.len() as int));
            assert(sb.drop_first() =~= b@.subrange(i + 1, b@.len() as int));
        }
        i = i + 1;
    }
    if i == a.len() {
        i < b.len()
    } else if i == b.len() {
        false
    } else {
        a[i] < b[i]
    }
}

impl Table {
    /// The taken slots, ordered by station name.
    pub fn sorted_slots(&self) -> (r: Vec<usize>)
        requires
            self.wf(),
        ensures
            forall|k: int| 0 <= k < r@.len() ==> (#[trigger] r@[k]) < SLOTS && self.occupied(r@[k] as int),
            forall|j: int|
                0 <= j < SLOTS && #[trigger] self.occupied(j) ==> exists|k: int|
                    0 <= k < r@.len() && r@[k] == j,
            forall|k1: int, k2: int|
                0 <= k1 < k2 < r@.len() ==> bytes_lt(
                    #[trigger] self.name_at(r@[k1] as int),
                    #[trigger] self.name_at(r@[k2] as int),
                ),
    {
        let mut r: Vec<usize> = Vec::new();
        let mut j: usize = 0;
        while j < SLOTS
            invariant
                self.wf(),
                j <= SLOTS,
                forall|k: int| 0 <= k < r@.len() ==> (#[trigger] r@[k]) < j && self.occupied(r@[k] as int),
                forall|i: int|
                    0 <= i < j && #[trigger] self.occupied(i) ==> exists|k: int|
                        0 <= k < r@.len() && r@[k] == i,
                forall|k1: int, k2: int|
                    0 <= k1 < k2 < r@.len() ==> bytes_lt(
                        #[trigger] self.name_at(r@[k1] as int),
                        #[trigger] self.name_at(r@[k2] as int),
                    ),
            decreases SLOTS - j,
        {
            if self.hashes[j] != 0 {
                proof {
                    self.lemma_slot(j as int);
                }
                let name = self.entries[j].name();
                let mut p: usize = 0;
                proof {
                    assert forall|k: int| 0 <= k < r@.len() implies self.entries@[(#[trigger] r@[k]) as int].klen <= 100 by {
                        self.lemma_slot(r@[k] as int);
                    }
                }
                while p < r.len() && name_less(self.entries[r[p]].name(), name)
                    invariant
                        self.wf(),
                        j < SLOTS,
                        p <= r@.len(),
                        forall|k: int| 0 <= k < r@.len() ==> self.entries@[(#[trigger] r@[k]) as int].klen <= 100,
                        name@ == self.name_at(j as int),
                        forall|k: int| 0 <= k < r@.len() ==> (#[trigger] r@[k]) < j && self.occupied(r@[k] as int),
                        forall|k: int| 0 <= k < p ==> bytes_lt(#[trigger] self.name_at(r@[k] as int), name@),
                    decreases r@.len() - p,
                {
                    proof {
                        self.lemma_slot(r@[p as int] as int);
                    }
                    p = p + 1;
                }
                proof {
                    if p < r@.len() {
                        self.lemma_slot(r@[p as int] as int);
                        let np = self.name_at(r@[p as int] as int);
                        lemma_bytes_lt_total(np, name@);
                        assert(np != name@);
                        assert(bytes_lt(name@, np));
                        assert forall|k: int| p <= k < r@.len() implies bytes_lt(
                            name@,
                            #[trigger] self.name_at(r@[k] as int),
                        ) by {
                            if k > p {
                                lemma_bytes_lt_trans(name@, np, self.name_at(r@[k] as int));
                            }
                        }
                    }
                }
                let ghost old_r = r@;
                r.insert(p, j);
                proof {
                    assert(r@ == old_r.insert(p as int, j));
                    assert forall|k1: int, k2: int|
                        0 <= k1 < k2 < r@.len() implies bytes_lt(
                            #[trigger] self.name_at(r@[k1] as int),
                            #[trigger] self.name_at(r@[k2] as int),
                        ) by {
                        if k2 < p {
                            assert(bytes_lt(self.name_at(old_r[k1] as int), self.name_at(old_r[k2] as int)));
                        } else if k2 == p {
                            assert(bytes_lt(self.name_at(old_r[k1] as int), name@));
                        } else if k1 < p {
                            assert(bytes_lt(self.name_at(old_r[k1] as int), name@));
                            assert(bytes_lt(name@, self.name_at(old_r[k2 - 1] as int)));
                            lemma_bytes_lt_trans(
                                self.name_at(old_r[k1] as int),
                                name@,
                                self.name_at(old_r[k2 - 1] as int),
                            );
                        } else if k1 == p {
                            assert(bytes_lt(name@, self.name_at(old_r[k2 - 1] as int)));
                        } else {
                            assert(bytes_lt(self.name_at(old_r[k1 - 1] as int), self.name_at(old_r[k2 - 1] as int)));
                        }
                    }
                    assert forall|i: int|
                        0 <= i < j + 1 && #[trigger] self.occupied(i) implies exists|k: int|
                            0 <= k < r@.len() && r@[k] == i by {
                        if i < j {
                            let k = choose|k: int| 0 <= k < old_r.len() && old_r[k] == i;
                            if k < p {
                                assert(r@[k] == i);
                            } else {
                                assert(r@[k + 1] == i);
                            }
                        } else {
                            assert(r@[p as int] == i);
                        }
                    }
                }
            }
            j = j + 1;
        }
        r
    }
}

} // verus!
