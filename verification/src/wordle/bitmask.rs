//! A compact set of letter positions.
//!
//! A word has at most 64 letters here, so the set of positions a letter
//! occupies fits in one machine word, one bit per position.

use vstd::prelude::*;

verus! {

/// Whether bit `i` of `m` is set.
pub open spec fn bit_set(m: u64, i: u64) -> bool {
    (m >> i) & 1u64 == 1u64
}

/// A set of positions `0..64`, stored one bit per position.
///
/// Its view is the mathematical set of positions whose bit is set.
/// Equality of the underlying words is equality of the sets.
#[derive(Debug)]
pub struct Bitmask(pub u64);

impl View for Bitmask {
    type V = Set<int>;

    open spec fn view(&self) -> Set<int> {
        Set::new(|i: int| 0 <= i < 64 && bit_set(self.0, i as u64))
    }
}

impl Bitmask {
    /// The empty set of positions.
    pub fn new() -> (r: Self)
        ensures
            r@ == Set::<int>::empty(),
    {
        let r = Bitmask(0);
        proof {
            assert forall|i: u64| i < 64 implies !bit_set(0u64, i) by {
                assert((0u64 >> i) & 1u64 == 0u64) by (bit_vector);
            }
            assert(r@ =~= Set::<int>::empty());
        }
        r
    }

    /// Adds position `value` to the set.
    pub fn add(&mut self, value: usize)
        requires
            value < 64,
        ensures
            final(self)@ == old(self)@.insert(value as int),
    {
        let ghost m: u64 = self.0;
        let ghost v: u64 = value as u64;
        self.0 = self.0 | (1u64 << (value as u64));
        proof {
            assert forall|i: u64| i < 64 implies bit_set(m | (1u64 << v), i) == (bit_set(m, i)
                || i == v) by {
                assert(v < 64 && i < 64 ==> (((m | (1u64 << v)) >> i) & 1u64 == 1u64) == (((m >> i)
                    & 1u64 == 1u64) || i == v)) by (bit_vector);
            }
            assert(self@ =~= old(self)@.insert(value as int));
        }
    }

    /// Whether position `value` is in the set.
    pub fn has(&self, value: usize) -> (r: bool)
        requires
            value < 64,
        ensures
            r == self@.contains(value as int),
    {
        let r = (self.0 & (1u64 << (value as u64))) > 0;
        proof {
            let m: u64 = self.0;
            let v: u64 = value as u64;
            assert(v < 64 ==> ((m & (1u64 << v)) > 0) == ((m >> v) & 1u64 == 1u64))
                by (bit_vector);
        }
        r
    }

    /// Removes position `value` from the set, if present.
    pub fn remove(&mut self, value: usize)
        requires
            value < 64,
        ensures
            final(self)@ == old(self)@.remove(value as int),
    {
        let ghost m: u64 = self.0;
        let ghost v: u64 = value as u64;
        if self.has(value) {
            self.0 = self.0 ^ (1u64 << (value as u64));
            proof {
                assert forall|i: u64| i < 64 implies bit_set(m ^ (1u64 << v), i) == (bit_set(m, i)
                    && i != v) by {
                    assert(v < 64 && i < 64 && (m >> v) & 1u64 == 1u64 ==> (((m ^ (1u64 << v)) >> i)
                        & 1u64 == 1u64) == (((m >> i) & 1u64 == 1u64) && i != v)) by (bit_vector);
                }
                assert(self@ =~= old(self)@.remove(value as int));
            }
        } else {
            proof {
                assert(self@ =~= old(self)@.remove(value as int));
            }
        }
    }

    /// The set of positions present in both `self` and `other`.
    pub fn intersection(&self, other: &Bitmask) -> (r: Bitmask)
        ensures
            r@ == self@.intersect(other@),
    {
        let r = Bitmask(self.0 & other.0);
        proof {
            let a: u64 = self.0;
            let b: u64 = other.0;
            assert forall|i: u64| i < 64 implies bit_set(a & b, i) == (bit_set(a, i) && bit_set(
                b,
                i,
            )) by {
                assert(i < 64 ==> (((a & b) >> i) & 1u64 == 1u64) == (((a >> i) & 1u64 == 1u64) && (
                (b >> i) & 1u64 == 1u64))) by (bit_vector);
            }
            assert(r@ =~= self@.intersect(other@));
        }
        r
    }

    /// The set of positions present in exactly one of `self` and `other`.
    pub fn symmetric_difference(&self, other: &Bitmask) -> (r: Bitmask)
        ensures
            r@ == self@.union(other@).difference(self@.intersect(other@)),
    {
        let r = Bitmask((self.0 & other.0) ^ (self.0 | other.0));
        proof {
            let a: u64 = self.0;
            let b: u64 = other.0;
            assert forall|i: u64| i < 64 implies bit_set((a & b) ^ (a | b), i) == (bit_set(a, i)
                != bit_set(b, i)) by {
                assert(i < 64 ==> ((((a & b) ^ (a | b)) >> i) & 1u64 == 1u64) == (((a >> i) & 1u64
                    == 1u64) != ((b >> i) & 1u64 == 1u64))) by (bit_vector);
            }
            assert(r@ =~= self@.union(other@).difference(self@.intersect(other@)));
        }
        r
    }

    /// How many positions the set holds.
    pub fn count(&self) -> (r: usize)
        ensures
            r == self@.len(),
    {
        let mut r: usize = 0;
        let mut idx: usize = 0;
        let ghost mut seen: Set<int> = Set::empty();
        while idx < 64
            invariant
                idx <= 64,
                r <= idx,
                seen.finite(),
                seen.len() == r,
                forall|i: int| seen.contains(i) <==> (0 <= i < idx && self@.contains(i)),
            decreases 64 - idx,
        {
            if self.has(idx) {
                r = r + 1;
                proof {
                    assert(!seen.contains(idx as int));
                    seen = seen.insert(idx as int);
                }
            }
            idx = idx + 1;
        }
        proof {
            assert(seen =~= self@);
        }
        r
    }

    /// The positions in the set, in ascending order.
    pub fn values(&self) -> (r: Vec<usize>)
        ensures
            forall|k1: int, k2: int| 0 <= k1 < k2 < r@.len() ==> r@[k1] < r@[k2],
            forall|k: int| 0 <= k < r@.len() ==> self@.contains(#[trigger] r@[k] as int),
            forall|i: int| self@.contains(i) ==> r@.contains(i as usize),
    {
        let mut r: Vec<usize> = Vec::new();
        let mut idx: usize = 0;
        while idx < 64
            invariant
                idx <= 64,
                forall|k1: int, k2: int| 0 <= k1 < k2 < r@.len() ==> r@[k1] < r@[k2],
                forall|k: int| 0 <= k < r@.len() ==> #[trigger] r@[k] < idx,
                forall|k: int| 0 <= k < r@.len() ==> self@.contains(#[trigger] r@[k] as int),
                forall|i: int| 0 <= i < idx && self@.contains(i) ==> r@.contains(i as usize),
            decreases 64 - idx,
        {
            if self.has(idx) {
                let ghost r0 = r@;
                r.push(idx);
                proof {
                    assert(r@[r@.len() - 1] == idx);
                    assert forall|i: int| 0 <= i < idx + 1 && self@.contains(i) implies r@.contains(
                        i as usize,
                    ) by {
                        if i < idx {
                            assert(r0.contains(i as usize));
                            let k = choose|k: int| 0 <= k < r0.len() && r0[k] == i as usize;
                            assert(r@[k] == i as usize);
                        } else {
                            assert(r@[r@.len() - 1] == i as usize);
                        }
                    }
                }
            }
            idx = idx + 1;
        }
        proof {
            assert forall|i: int| self@.contains(i) implies r@.contains(i as usize) by {
                assert(0 <= i < 64);
            }
        }
        r
    }
}

impl Default for Bitmask {
    /// The empty set of positions.
    fn default() -> (r: Self)
        ensures
            r@ == Set::<int>::empty(),
    {
        Bitmask::new()
    }
}

} // verus!
