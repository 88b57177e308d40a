//! Approximate membership filter over cell identities.
//!
//! A single machine word serves as a bitmask of hashed cell identities: a
//! clear bit is a strict guarantee of absence, a set bit only a "maybe".
//! Beside the bitmask sits an exact overflow index from cell identity to the
//! offset of the cell's record, so a possible hit never needs a re-scan of
//! the whole log. Collisions only ever produce false positives, never false
//! negatives.

use vstd::prelude::*;

verus! {

/// Answer of the membership filter: `No` is a strict guarantee of absence,
/// `Maybe` a best-effort positive that the exact index disambiguates.
#[derive(Clone, Copy, PartialEq, Eq, Structural, Debug)]
pub enum Contained {
    No,
    Maybe,
}

/// The bit of the filter word that summarises the given cell identity.
pub open spec fn filter_hash(id: usize) -> u64 {
    1u64 << ((id as u64) % 64)
}

/// Two cell identities whose filter bits overlap hash to the same bit.
pub proof fn lemma_filter_hash_overlap(a: usize, b: usize)
    requires
        filter_hash(a) & filter_hash(b) != 0,
    ensures
        filter_hash(a) == filter_hash(b),
{
    let x = a as u64;
    let y = b as u64;
    assert((1u64 << (x % 64)) & (1u64 << (y % 64)) != 0 ==> (1u64 << (x % 64)) == (1u64 << (y
        % 64))) by (bit_vector);
}

/// Setting one filter bit never clears another: every identity covered by the
/// mask stays covered.
pub proof fn lemma_filter_or_preserves(bits: u64, added: u64, probe: u64)
    ensures
        bits & probe != 0 ==> (bits | added) & probe != 0,
        added & probe != 0 ==> (bits | added) & probe != 0,
        (bits | added) & probe != 0 ==> bits & probe != 0 || added & probe != 0,
{
    assert(bits & probe != 0 ==> (bits | added) & probe != 0) by (bit_vector);
    assert(added & probe != 0 ==> (bits | added) & probe != 0) by (bit_vector);
    assert((bits | added) & probe != 0 ==> bits & probe != 0 || added & probe != 0)
        by (bit_vector);
}

/// Setting a cell's filter bit covers that cell.
pub proof fn lemma_filter_or_covers(bits: u64, id: usize)
    ensures
        (bits | filter_hash(id)) & filter_hash(id) != 0,
{
    let x = id as u64;
    assert((bits | (1u64 << (x % 64))) & (1u64 << (x % 64)) != 0) by (bit_vector);
}

/// A mask that already covers a cell absorbs the cell's filter bit.
pub proof fn lemma_filter_bit_absorbed(bits: u64, id: usize)
    requires
        bits & filter_hash(id) != 0,
    ensures
        bits | filter_hash(id) == bits,
{
    let x = id as u64;
    assert(bits & (1u64 << (x % 64)) != 0 ==> (bits | (1u64 << (x % 64))) == bits)
        by (bit_vector);
}

/// The exact map described by an association sequence, later pairs taking
/// precedence over earlier ones.
pub open spec fn assoc_map(s: Seq<(usize, usize)>) -> Map<usize, usize>
    decreases s.len(),
{
    if s.len() == 0 {
        Map::empty()
    } else {
        assoc_map(s.drop_last()).insert(s.last().0, s.last().1)
    }
}

/// Keys that appear nowhere in a suffix of the association sequence play no
/// part in its map: the map agrees with the map of the prefix on them.
pub proof fn lemma_assoc_absent_suffix(s: Seq<(usize, usize)>, k: int, id: usize)
    requires
        0 <= k <= s.len(),
        forall|j: int| k <= j < s.len() ==> (#[trigger] s[j]).0 != id,
    ensures
        assoc_map(s).dom().contains(id) == assoc_map(s.take(k)).dom().contains(id),
        assoc_map(s).dom().contains(id) ==> assoc_map(s)[id] == assoc_map(s.take(k))[id],
    decreases s.len() - k,
{
    if k == s.len() {
        assert(s.take(k) =~= s);
    } else {
        assert(s.drop_last() =~= s.take(s.len() - 1));
        lemma_assoc_absent_suffix(s.take(s.len() - 1), k, id);
        assert(s.take(s.len() - 1).take(k) =~= s.take(k));
    }
}

/// Mathematical state of the filter: the summary bitmask and the exact
/// overflow index from cell identity to record offset.
pub ghost struct BloomModel {
    pub bits: u64,
    pub index: Map<usize, usize>,
}

/// The membership filter: a lossy one-word bitmask plus an exact overflow
/// index, kept as an append-only association list where the latest entry for
/// an identity wins.
pub struct Bloom {
    bits: u64,
    overflow: Vec<(usize, usize)>,
}

impl View for Bloom {
    type V = BloomModel;

    closed spec fn view(&self) -> BloomModel {
        BloomModel { bits: self.bits, index: assoc_map(self.overflow@) }
    }
}

impl Bloom {
    /// An empty filter: no bit set, no overflow entry.
    pub fn new() -> (r: Self)
        ensures
            r@.bits == 0,
            r@.index =~= Map::<usize, usize>::empty(),
    {
        Bloom { bits: 0, overflow: Vec::new() }
    }

    /// Resets the filter to empty for reuse by the next transaction attempt.
    pub fn clear(&mut self)
        ensures
            final(self)@.bits == 0,
            final(self)@.index =~= Map::<usize, usize>::empty(),
    {
        self.bits = 0;
        self.overflow.clear();
    }

    /// The filter bit of the given cell identity, as a machine word.
    fn hash(id: usize) -> (r: u64)
        ensures
            r == filter_hash(id),
    {
        1u64 << ((id as u64) % 64)
    }

    /// Definite-negative membership test: `No` guarantees the identity was
    /// never inserted since the last clear.
    pub fn contained(&self, id: usize) -> (r: Contained)
        ensures
            (r == Contained::No) == (self@.bits & filter_hash(id) == 0),
            r == Contained::No || r == Contained::Maybe,
    {
        if self.bits & Self::hash(id) == 0 {
            Contained::No
        } else {
            Contained::Maybe
        }
    }

    /// Tests and sets the identity's bit in one step, returning what
    /// [`Bloom::contained`] would have answered beforehand. The exact index is
    /// not touched.
    pub fn insert_inline(&mut self, id: usize) -> (r: Contained)
        ensures
            final(self)@.bits == old(self)@.bits | filter_hash(id),
            final(self)@.index == old(self)@.index,
            (r == Contained::No) == (old(self)@.bits & filter_hash(id) == 0),
            r == Contained::No || r == Contained::Maybe,
    {
        let h = Self::hash(id);
        let r = if self.bits & h == 0 {
            Contained::No
        } else {
            Contained::Maybe
        };
        self.bits = self.bits | h;
        r
    }

    /// Exact lookup in the overflow index.
    pub fn overflow_get(&self, id: usize) -> (r: Option<usize>)
        ensures
            match r {
                Some(off) => self@.index.dom().contains(id) && self@.index[id] == off,
                None => !self@.index.dom().contains(id),
            },
    {
        let ghost s = self.overflow@;
        let mut i: usize = self.overflow.len();
        loop
            invariant
                i <= s.len(),
                s == self.overflow@,
                forall|j: int| i <= j < s.len() ==> (#[trigger] s[j]).0 != id,
            decreases i,
        {
            if i == 0 {
                proof {
                    lemma_assoc_absent_suffix(s, 0, id);
                    assert(s.take(0) =~= Seq::<(usize, usize)>::empty());
                }
                return None;
            }
            i = i - 1;
            let pair = self.overflow[i];
            if pair.0 == id {
                proof {
                    lemma_assoc_absent_suffix(s, i + 1, id);
                    assert(s.take(i + 1).drop_last() =~= s.take(i as int));
                    assert(assoc_map(s.take(i + 1)) == assoc_map(s.take(i as int)).insert(
                        s[i as int].0,
                        s[i as int].1,
                    ));
                }
                return Some(pair.1);
            }
        }
    }

    /// Sets the identity's bit and binds the identity to the given record
    /// offset in the exact index; returns whether an earlier binding for the
    /// same identity was replaced.
    pub fn insert_overflow(&mut self, id: usize, offset: usize) -> (r: bool)
        ensures
            final(self)@.bits == old(self)@.bits | filter_hash(id),
            final(self)@.index =~= old(self)@.index.insert(id, offset),
            r == old(self)@.index.dom().contains(id),
    {
        let r = self.overflow_get(id).is_some();
        self.bits = self.bits | Self::hash(id);
        self.overflow.push((id, offset));
        proof {
            assert(self.overflow@.drop_last() =~= old(self).overflow@);
        }
        r
    }
}

} // verus!
