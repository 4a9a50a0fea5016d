//! The header collection: an ordered mapping from header name to header
//! value with unique keys and a last-wins policy for repeated assignments.
//!
//! The collection owns its entries (name and value are byte strings), so a
//! parsed message never borrows from the input buffer.
use crate::error::Error;
use crate::wire::{
    bytes_eq, copy_range, find2, lemma_find2_props, trim, trim_bounds, COLON, CR, LF, SP,
};
use vstd::prelude::*;
use vstd::slice::slice_subrange;

verus! {

/// A header entry at the specification level: name and value.
pub type SpecPair = (Seq<u8>, Seq<u8>);

/// The index of the first entry of `pairs` whose name is `k`.
pub open spec fn hm_find(pairs: Seq<SpecPair>, k: Seq<u8>) -> Option<int>
    decreases pairs.len(),
{
    if pairs.len() == 0 {
        None
    } else if pairs[0].0 == k {
        Some(0)
    } else {
        match hm_find(pairs.drop_first(), k) {
            None => None,
            Some(i) => Some(i + 1),
        }
    }
}

/// The value stored under `k`, if any.
pub open spec fn hm_get(pairs: Seq<SpecPair>, k: Seq<u8>) -> Option<Seq<u8>> {
    match hm_find(pairs, k) {
        None => None,
        Some(i) => Some(pairs[i].1),
    }
}

/// `pairs` with `v` assigned to `k`: the existing entry is overwritten in
/// place, or a new entry is appended.
pub open spec fn hm_insert(pairs: Seq<SpecPair>, k: Seq<u8>, v: Seq<u8>) -> Seq<SpecPair> {
    match hm_find(pairs, k) {
        None => pairs.push((k, v)),
        Some(i) => pairs.update(i, (k, v)),
    }
}

/// `pairs` without the entry named `k`, if there was one.
pub open spec fn hm_remove(pairs: Seq<SpecPair>, k: Seq<u8>) -> Seq<SpecPair> {
    match hm_find(pairs, k) {
        None => pairs,
        Some(i) => pairs.remove(i),
    }
}

/// No two entries share a name.
pub open spec fn distinct_keys(pairs: Seq<SpecPair>) -> bool {
    forall|i: int, j: int| 0 <= i < j < pairs.len() ==> (#[trigger] pairs[i]).0 != (
    #[trigger] pairs[j]).0
}

/// `hm_find` returns the first index holding `k`, or `None` when no entry
/// holds it.
pub proof fn lemma_hm_find_props(pairs: Seq<SpecPair>, k: Seq<u8>)
    ensures
        match hm_find(pairs, k) {
            Some(i) => 0 <= i < pairs.len() && (#[trigger] pairs[i]).0 == k && forall|j: int|
                0 <= j < i ==> (#[trigger] pairs[j]).0 != k,
            None => forall|j: int| 0 <= j < pairs.len() ==> (#[trigger] pairs[j]).0 != k,
        },
    decreases pairs.len(),
{
    if pairs.len() == 0 {
    } else if pairs[0].0 == k {
    } else {
        lemma_hm_find_props(pairs.drop_first(), k);
        let t = pairs.drop_first();
        assert(forall|j: int| 0 <= j < t.len() ==> #[trigger] t[j] == pairs[j + 1]);
        match hm_find(t, k) {
            None => {
                assert(forall|j: int|
                    1 <= j < pairs.len() ==> (#[trigger] pairs[j]).0 == t[j - 1].0);
            },
            Some(i) => {
                assert(pairs[i + 1].0 == t[i].0);
                assert(forall|j: int| 1 <= j < i + 1 ==> (#[trigger] pairs[j]).0 == t[j - 1].0);
            },
        }
    }
}

/// Assignment keeps keys unique.
pub proof fn lemma_hm_insert_distinct(pairs: Seq<SpecPair>, k: Seq<u8>, v: Seq<u8>)
    requires
        distinct_keys(pairs),
    ensures
        distinct_keys(hm_insert(pairs, k, v)),
        hm_get(hm_insert(pairs, k, v), k) == Some(v),
{
    lemma_hm_find_props(pairs, k);
    let r = hm_insert(pairs, k, v);
    match hm_find(pairs, k) {
        None => {
            assert(forall|j: int| 0 <= j < pairs.len() ==> (#[trigger] r[j]) == pairs[j]);
            assert(r[pairs.len() as int].0 == k);
            lemma_hm_find_props(r, k);
            match hm_find(r, k) {
                None => {
                    assert(r[pairs.len() as int].0 != k);
                },
                Some(i) => {
                    if i < pairs.len() {
                        assert(pairs[i].0 == k);
                    }
                },
            }
        },
        Some(i) => {
            assert(forall|j: int|
                0 <= j < r.len() && j != i ==> (#[trigger] r[j]) == pairs[j]);
            assert(r[i].0 == k);
            lemma_hm_find_props(r, k);
            match hm_find(r, k) {
                None => {
                    assert(r[i].0 != k);
                },
                Some(i2) => {
                    if i2 < i {
                        assert(pairs[i2].0 != k);
                        assert(r[i2].0 == k);
                    } else if i2 > i {
                        assert(r[i2].0 == k);
                        assert(pairs[i2].0 == k);
                        assert(pairs[i].0 == k);
                    }
                },
            }
        },
    }
}

/// Removal keeps keys unique and leaves no entry under the removed key.
pub proof fn lemma_hm_remove_distinct(pairs: Seq<SpecPair>, k: Seq<u8>)
    requires
        distinct_keys(pairs),
    ensures
        distinct_keys(hm_remove(pairs, k)),
        hm_get(hm_remove(pairs, k), k) is None,
{
    lemma_hm_find_props(pairs, k);
    let r = hm_remove(pairs, k);
    match hm_find(pairs, k) {
        None => {
            lemma_hm_find_props(r, k);
        },
        Some(i) => {
            assert(forall|j: int|
                0 <= j < r.len() ==> (#[trigger] r[j]) == (if j < i {
                    pairs[j]
                } else {
                    pairs[j + 1]
                }));
            lemma_hm_find_props(r, k);
            if let Some(i2) = hm_find(r, k) {
                assert(r[i2].0 == k);
                if i2 < i {
                    assert(pairs[i2].0 == k);
                } else {
                    assert(pairs[i2 + 1].0 == k);
                    assert(pairs[i].0 == k);
                }
            }
        },
    }
}

/// One step of header-block parsing: the trimmed block still to read is
/// `s`, and `acc` holds the entries read so far.  Each nonempty line must
/// split on the first `: ` into a name and a value; a line that does not is
/// a construction failure, reported as `None`.
pub open spec fn hm_lines(s: Seq<u8>, acc: Seq<SpecPair>) -> Option<Seq<SpecPair>>
    decreases s.len(),
    via hm_lines_dec
{
    if s.len() == 0 {
        Some(acc)
    } else {
        let line = match find2(s, CR, LF) {
            None => s,
            Some(i) => s.subrange(0, i),
        };
        let rest = match find2(s, CR, LF) {
            None => Seq::<u8>::empty(),
            Some(i) => s.subrange(i + 2, s.len() as int),
        };
        if line.len() == 0 {
            hm_lines(rest, acc)
        } else {
            match find2(line, COLON, SP) {
                None => None,
                Some(j) => hm_lines(
                    rest,
                    hm_insert(acc, line.subrange(0, j), line.subrange(j + 2, line.len() as int)),
                ),
            }
        }
    }
}

#[via_fn]
proof fn hm_lines_dec(s: Seq<u8>, acc: Seq<SpecPair>) {
    lemma_find2_props(s, CR, LF);
}

/// What constructing a header collection from a raw block yields: trim the
/// block, split it on CR LF, discard empty lines, split each line on the
/// first `: `, and assign last-wins.  `None` is a construction failure.
pub open spec fn hm_parse(block: Seq<u8>) -> Option<Seq<SpecPair>> {
    hm_lines(trim(block), Seq::empty())
}

/// The header collection: an ordered list of (name, value) entries with
/// unique names.  A repeated assignment overwrites the stored value in
/// place (last wins).
#[derive(Debug, PartialEq, Eq, Clone)]
pub struct HeaderMap {
    pairs: Vec<(Vec<u8>, Vec<u8>)>,
}

impl View for HeaderMap {
    type V = Seq<SpecPair>;

    closed spec fn view(&self) -> Seq<SpecPair> {
        Seq::new(self.pairs@.len(), |i: int| (self.pairs@[i].0@, self.pairs@[i].1@))
    }
}

impl HeaderMap {
    /// The collection's invariant: entry names are unique.
    pub open spec fn wf(self) -> bool {
        distinct_keys(self@)
    }

    /// An empty collection.
    pub fn empty() -> (r: HeaderMap)
        ensures
            r@ == Seq::<SpecPair>::empty(),
            r.wf(),
    {
        let r = HeaderMap { pairs: Vec::new() };
        proof {
            assert(r@ =~= Seq::<SpecPair>::empty());
        }
        r
    }

    /// The index of the entry named `key`, scanning from the front.
    fn find_idx(&self, key: &[u8]) -> (r: Option<usize>)
        ensures
            match r {
                Some(i) => hm_find(self@, key@) == Some(i as int) && i < self@.len(),
                None => hm_find(self@, key@) is None,
            },
    {
        let n = self.pairs.len();
        let mut i: usize = 0;
        while i < n
            invariant
                i <= n,
                n == self@.len(),
                forall|j: int| 0 <= j < i ==> (#[trigger] self@[j]).0 != key@,
            decreases n - i,
        {
            if bytes_eq(self.pairs[i].0.as_slice(), key) {
                proof {
                    lemma_hm_find_props(self@, key@);
                    assert(self@[i as int].0 == key@);
                    match hm_find(self@, key@) {
                        None => {
                            assert(self@[i as int].0 != key@);
                        },
                        Some(f) => {
                            if f < i {
                                assert(self@[f].0 != key@);
                            } else if f > i {
                                assert(self@[i as int].0 != key@);
                            }
                        },
                    }
                }
                return Some(i);
            }
            proof {
                assert(self@[i as int].0 != key@);
            }
            i = i + 1;
        }
        proof {
            lemma_hm_find_props(self@, key@);
            if let Some(f) = hm_find(self@, key@) {
                assert(self@[f].0 != key@);
            }
        }
        None
    }

    /// Look up a header value by exact name match.
    pub fn get(&self, key: &[u8]) -> (r: Option<&Vec<u8>>)
        ensures
            match r {
                Some(v) => hm_get(self@, key@) == Some(v@),
                None => hm_get(self@, key@) is None,
            },
    {
        match self.find_idx(key) {
            Some(i) => Some(&self.pairs[i].1),
            None => None,
        }
    }

    /// Whether the collection has an entry named `key`.
    pub fn contains(&self, key: &[u8]) -> (r: bool)
        ensures
            r == (hm_get(self@, key@) is Some),
    {
        self.get(key).is_some()
    }

    /// The number of entries.
    pub fn len(&self) -> (r: usize)
        ensures
            r == self@.len(),
    {
        self.pairs.len()
    }

    /// Whether the collection has no entries.
    pub fn is_empty(&self) -> (r: bool)
        ensures
            r == (self@.len() == 0),
    {
        self.pairs.len() == 0
    }

    /// The entry at position `i`, in iteration order.
    pub fn entry_at(&self, i: usize) -> (r: &(Vec<u8>, Vec<u8>))
        requires
            i < self@.len(),
        ensures
            (r.0@, r.1@) == self@[i as int],
    {
        &self.pairs[i]
    }

    /// Assign `value` to `name`; an existing entry with that name is
    /// overwritten in place, so the latest assignment wins.
    pub fn insert(&mut self, name: Vec<u8>, value: Vec<u8>)
        ensures
            final(self)@ == hm_insert(old(self)@, name@, value@),
            old(self).wf() ==> final(self).wf(),
    {
        let ghost pre = self@;
        match self.find_idx(name.as_slice()) {
            Some(i) => {
                self.pairs.set(i, (name, value));
                proof {
                    assert(self@ =~= hm_insert(pre, name@, value@));
                }
            },
            None => {
                self.pairs.push((name, value));
                proof {
                    assert(self@ =~= hm_insert(pre, name@, value@));
                }
            },
        }
        proof {
            if distinct_keys(pre) {
                lemma_hm_insert_distinct(pre, name@, value@);
            }
        }
    }

    /// Drop the entry named `key`, if there is one.
    pub fn remove(&mut self, key: &[u8])
        ensures
            final(self)@ == hm_remove(old(self)@, key@),
            old(self).wf() ==> final(self).wf(),
    {
        let ghost pre = self@;
        match self.find_idx(key) {
            Some(i) => {
                let ghost prev = self.pairs@;
                let _ = self.pairs.remove(i);
                proof {
                    prev.remove_ensures(i as int);
                    pre.remove_ensures(i as int);
                    assert(self@ =~= hm_remove(pre, key@));
                }
            },
            None => {
            },
        }
        proof {
            if distinct_keys(pre) {
                lemma_hm_remove_distinct(pre, key@);
            }
        }
    }

    /// A cursor over the entries, in order.
    pub fn iter(&self) -> (r: HeaderMapIter<'_>)
        ensures
            r.entries() == self@,
            r.position() == 0,
    {
        HeaderMapIter { map: self, idx: 0 }
    }

    /// Build a collection from a raw header block: trim it, split it on
    /// CR LF, discard empty lines, and split every remaining line on the
    /// first `: ` into a name and a value.  A line without the delimiter
    /// fails the whole construction with `InvalidHeader`; a repeated name
    /// keeps the last value.
    pub fn new(block: &[u8]) -> (r: Result<HeaderMap, Error>)
        ensures
            match r {
                Ok(h) => hm_parse(block@) == Some(h@) && h.wf(),
                Err(e) => hm_parse(block@) is None && e == Error::InvalidHeader,
            },
    {
        let (lo, hi) = trim_bounds(block);
        let mut map = HeaderMap::empty();
        let mut p = lo;
        while p < hi
            invariant
                lo <= p <= hi <= block@.len(),
                trim(block@) == block@.subrange(lo as int, hi as int),
                hm_lines(trim(block@), Seq::empty()) == hm_lines(
                    block@.subrange(p as int, hi as int),
                    map@,
                ),
                map.wf(),
            decreases hi - p,
        {
            let ghost s = block@.subrange(p as int, hi as int);
            let region = slice_subrange(block, p, hi);
            let (line_end, next_p): (usize, usize) = match crate::wire::scan2(region, CR, LF) {
                Some(i) => (p + i, p + i + 2),
                None => (hi, hi),
            };
            proof {
                lemma_find2_props(s, CR, LF);
            }
            let ghost line = match find2(s, CR, LF) {
                None => s,
                Some(i) => s.subrange(0, i),
            };
            let ghost rest = match find2(s, CR, LF) {
                None => Seq::<u8>::empty(),
                Some(i) => s.subrange(i + 2, s.len() as int),
            };
            proof {
                assert(line =~= block@.subrange(p as int, line_end as int));
                if find2(s, CR, LF) is Some {
                    assert(rest =~= block@.subrange(next_p as int, hi as int));
                } else {
                    assert(rest =~= block@.subrange(next_p as int, hi as int));
                }
            }
            if line_end > p {
                let line_slice = slice_subrange(block, p, line_end);
                match crate::wire::scan2(line_slice, COLON, SP) {
                    Some(j) => {
                        let name = copy_range(line_slice, 0, j);
                        let value = copy_range(line_slice, j + 2, line_slice.len());
                        proof {
                            lemma_find2_props(line, COLON, SP);
                        }
                        map.insert(name, value);
                    },
                    None => {
                        return Err(Error::InvalidHeader);
                    },
                }
            }
            p = next_p;
        }
        proof {
            assert(block@.subrange(hi as int, hi as int) =~= Seq::<u8>::empty());
        }
        Ok(map)
    }
}

/// A cursor over a header collection's entries, in iteration order.
pub struct HeaderMapIter<'a> {
    /// The collection being walked.
    map: &'a HeaderMap,
    /// The position of the next entry to hand out.
    idx: usize,
}

impl<'a> HeaderMapIter<'a> {
    /// The entries the cursor walks.
    pub closed spec fn entries(self) -> Seq<SpecPair> {
        self.map@
    }

    /// The position of the next entry.
    pub closed spec fn position(self) -> int {
        self.idx as int
    }

    /// The next entry, or `None` once all entries have been handed out.
    pub fn next(&mut self) -> (r: Option<&'a (Vec<u8>, Vec<u8>)>)
        ensures
            old(self).entries() == final(self).entries(),
            match r {
                Some(pair) => old(self).position() < old(self).entries().len() && (
                pair.0@,
                pair.1@,
                ) == old(self).entries()[old(self).position()] && final(self).position() == old(
                    self,
                ).position() + 1,
                None => old(self).position() >= old(self).entries().len() && final(self).position()
                    == old(self).position(),
            },
    {
        if self.idx < self.map.pairs.len() {
            let pair = &self.map.pairs[self.idx];
            self.idx = self.idx + 1;
            Some(pair)
        } else {
            None
        }
    }
}

} // verus!
