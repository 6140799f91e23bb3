//! Posting cursors and their sorted intersection.
//!
//! A [`SegmentPostings`] is a forward-only cursor over a decoded, strictly
//! increasing id list. An [`IntersectionPostings`] merges any number of such
//! cursors and lazily yields, in ascending order, exactly the ids that every
//! cursor still holds.

use vstd::prelude::*;

use crate::codec::blob_ids;
use crate::codec::blob_wf;
use crate::codec::decode;
use crate::codec::strictly_increasing;
use crate::error::IndexError;
use crate::schema::DocId;

verus! {

/// Dictionary value locating one term's posting list: the byte offset of its
/// blob inside the postings region, and the exact number of ids recorded for
/// it.
#[derive(Clone, Copy, Debug, PartialEq, Eq, Structural)]
pub struct TermInfo {
    pub postings_offset: u32,
    pub doc_freq: u32,
}

/// A forward-only cursor over an in-memory decoded id list.
pub struct SegmentPostings {
    doc_id: usize,
    doc_ids: Vec<DocId>,
}

impl SegmentPostings {
    /// The full decoded id list, consumed part included.
    pub closed spec fn all_ids(self) -> Seq<u32> {
        self.doc_ids@
    }

    /// The read position: how many ids have been consumed.
    pub closed spec fn pos(self) -> int {
        self.doc_id as int
    }

    /// The ids the cursor has not yet yielded.
    pub open spec fn rem(self) -> Seq<u32> {
        self.all_ids().skip(self.pos())
    }

    /// The list is strictly ascending and the position is inside it.
    pub open spec fn wf(self) -> bool {
        &&& 0 <= self.pos() <= self.all_ids().len()
        &&& strictly_increasing(self.all_ids())
    }

    /// A zero-length cursor: the sentinel for a term that is absent from the
    /// dictionary, forcing an empty intersection.
    pub fn empty() -> (r: SegmentPostings)
        ensures
            r.wf(),
            r.pos() == 0,
            r.all_ids().len() == 0,
    {
        SegmentPostings { doc_id: 0, doc_ids: Vec::new() }
    }

    /// Decodes the posting blob at `offset` into a fresh cursor. A malformed
    /// or truncated blob is reported, never silently shortened.
    pub fn from_data(doc_freq: DocId, data: &Vec<u8>, offset: usize) -> (r: Result<
        SegmentPostings,
        IndexError,
    >)
        ensures
            match r {
                Ok(p) => {
                    &&& blob_wf(data@, offset as int, doc_freq as int)
                    &&& p.wf()
                    &&& p.pos() == 0
                    &&& p.all_ids() == blob_ids(data@, offset as int)
                },
                Err(e) => {
                    &&& e == IndexError::Decode
                    &&& !blob_wf(data@, offset as int, doc_freq as int)
                },
            },
    {
        match decode(data, offset, doc_freq) {
            Ok(ids) => Ok(SegmentPostings { doc_id: 0, doc_ids: ids }),
            Err(e) => Err(e),
        }
    }

    /// Yields the next id in ascending order, or the end of the sequence.
    pub fn next(&mut self) -> (r: Option<DocId>)
        requires
            old(self).wf(),
        ensures
            final(self).wf(),
            final(self).all_ids() == old(self).all_ids(),
            match r {
                Some(v) => {
                    &&& old(self).rem().len() > 0
                    &&& v == old(self).rem()[0]
                    &&& final(self).rem() == old(self).rem().skip(1)
                },
                None => {
                    &&& old(self).rem().len() == 0
                    &&& *final(self) == *old(self)
                },
            },
    {
        if self.doc_id < self.doc_ids.len() {
            let res = self.doc_ids[self.doc_id];
            self.doc_id = self.doc_id + 1;
            proof {
                assert(final(self).rem() =~= old(self).rem().skip(1));
            }
            Some(res)
        } else {
            None
        }
    }

    /// Discards every remaining id below `target` and yields the first id at
    /// or above it, or the end of the sequence if none remains. The returned
    /// id is consumed along with everything before it.
    pub fn skip_next(&mut self, target: DocId) -> (r: Option<DocId>)
        requires
            old(self).wf(),
        ensures
            final(self).wf(),
            final(self).all_ids() == old(self).all_ids(),
            match r {
                Some(v) => exists|i: int|
                    {
                        &&& 0 <= i < old(self).rem().len()
                        &&& old(self).rem()[i] == v
                        &&& v >= target
                        &&& forall|j: int| 0 <= j < i ==> old(self).rem()[j] < target
                        &&& final(self).rem() == old(self).rem().skip(i + 1)
                    },
                None => {
                    &&& forall|j: int|
                        0 <= j < old(self).rem().len() ==> old(self).rem()[j] < target
                    &&& final(self).rem().len() == 0
                },
            },
    {
        let ghost start = self.doc_id as int;
        loop
            invariant
                self.wf(),
                self.all_ids() == old(self).all_ids(),
                start == old(self).pos(),
                start <= self.pos(),
                forall|j: int| start <= j < self.pos() ==> self.all_ids()[j] < target,
            decreases self.all_ids().len() - self.pos(),
        {
            let ghost here = self.pos();
            match self.next() {
                Some(val) => {
                    if val >= target {
                        proof {
                            let i = here - start;
                            assert(old(self).rem()[i] == val);
                            assert(forall|j: int|
                                0 <= j < i ==> old(self).rem()[j] == self.all_ids()[start + j]);
                            assert(self.rem() =~= old(self).rem().skip(i + 1));
                        }
                        return Some(val);
                    }
                },
                None => {
                    proof {
                        assert(forall|j: int|
                            0 <= j < old(self).rem().len() ==> old(self).rem()[j]
                                == self.all_ids()[start + j]);
                    }
                    return None;
                },
            }
        }
    }

    /// True when every id of the cursor's list lies strictly below `bound`.
    /// The list is ascending, so only its last id needs to be looked at.
    pub fn all_below(&self, bound: DocId) -> (r: bool)
        requires
            self.wf(),
        ensures
            r == forall|k: int| 0 <= k < self.all_ids().len() ==> self.all_ids()[k] < bound,
    {
        let n = self.doc_ids.len();
        if n == 0 {
            true
        } else {
            let last = self.doc_ids[n - 1];
            proof {
                if last < bound {
                    assert forall|k: int|
                        0 <= k < self.all_ids().len() implies self.all_ids()[k] < bound by {
                        if k < n - 1 {
                            assert(self.all_ids()[k] < self.all_ids()[n - 1]);
                        }
                    }
                }
            }
            last < bound
        }
    }
}

/// Targets that do not decrease never revisit ground already passed: a second
/// `skip_next` over what the first call left behind yields an id strictly
/// greater than the first call's id, and than everything consumed before it.
pub proof fn lemma_skip_next_monotonic(
    s: Seq<u32>,
    t1: u32,
    i1: int,
    v1: u32,
    t2: u32,
    i2: int,
    v2: u32,
)
    requires
        strictly_increasing(s),
        t1 <= t2,
        // the first call on remainder `s` yielded `v1` at index `i1`
        0 <= i1 < s.len(),
        s[i1] == v1,
        v1 >= t1,
        // the second call ran on `s.skip(i1 + 1)` and yielded `v2` at `i2`
        0 <= i2 < s.skip(i1 + 1).len(),
        s.skip(i1 + 1)[i2] == v2,
        v2 >= t2,
    ensures
        v2 > v1,
        forall|j: int| 0 <= j <= i1 ==> v2 > s[j],
{
    assert(s.skip(i1 + 1)[i2] == s[i1 + 1 + i2]);
}

/// The lazy N-way sorted intersection over posting cursors.
pub struct IntersectionPostings {
    lists: Vec<Vec<DocId>>,
    positions: Vec<usize>,
}

impl IntersectionPostings {
    /// How many cursors feed the intersection.
    pub closed spec fn n(self) -> int {
        self.lists@.len() as int
    }

    /// The full id list of cursor `j`.
    pub closed spec fn list(self, j: int) -> Seq<u32> {
        self.lists@[j]@
    }

    /// What cursor `j` has not yet consumed.
    pub closed spec fn rem(self, j: int) -> Seq<u32> {
        self.list(j).skip(self.position(j))
    }

    pub closed spec fn position(self, j: int) -> int {
        self.positions@[j] as int
    }

    /// One read position per cursor.
    pub closed spec fn aligned(self) -> bool {
        self.positions@.len() == self.lists@.len()
    }

    /// Every cursor is well formed.
    pub open spec fn wf(self) -> bool {
        &&& self.aligned()
        &&& (forall|j: int|
            0 <= j < self.n() ==> 0 <= #[trigger] self.position(j) <= self.list(j).len())
        &&& (forall|j: int| 0 <= j < self.n() ==> strictly_increasing(#[trigger] self.list(j)))
    }

    /// The ids the intersection has yet to yield: those still held by every
    /// cursor. With no cursors at all nothing is pending — zero query terms
    /// yield an empty result by definition.
    pub open spec fn pending(self, x: u32) -> bool {
        &&& self.n() > 0
        &&& forall|j: int| 0 <= j < self.n() ==> #[trigger] self.rem(j).contains(x)
    }

    /// Gathers the given cursors, in order, into an intersection.
    pub fn from_postings(postings: Vec<SegmentPostings>) -> (r: IntersectionPostings)
        requires
            forall|i: int| 0 <= i < postings@.len() ==> postings@[i].wf(),
        ensures
            r.wf(),
            r.n() == postings@.len(),
            forall|j: int| 0 <= j < r.n() ==> r.rem(j) == postings@[j].rem(),
    {
        let ghost inputs = postings@;
        let mut rest = postings;
        let mut lists: Vec<Vec<DocId>> = Vec::new();
        let mut positions: Vec<usize> = Vec::new();
        while rest.len() > 0
            invariant
                rest@ == inputs.skip(lists@.len() as int),
                lists@.len() + rest@.len() == inputs.len(),
                positions@.len() == lists@.len(),
                forall|i: int| 0 <= i < inputs.len() ==> inputs[i].wf(),
                forall|j: int|
                    0 <= j < lists@.len() ==> #[trigger] lists@[j]@ == inputs[j].all_ids(),
                forall|j: int|
                    0 <= j < lists@.len() ==> #[trigger] positions@[j] as int == inputs[j].pos(),
            decreases rest@.len(),
        {
            let p = rest.remove(0);
            proof {
                assert(p == inputs[lists@.len() as int]);
                assert(rest@ =~= inputs.skip(lists@.len() as int + 1));
            }
            let SegmentPostings { doc_id, doc_ids } = p;
            lists.push(doc_ids);
            positions.push(doc_id);
        }
        let r = IntersectionPostings { lists, positions };
        proof {
            assert forall|j: int| 0 <= j < r.n() implies r.rem(j) == inputs[j].rem() by {
                assert(r.list(j) == inputs[j].all_ids());
            }
        }
        r
    }

    /// Advances `list` from `from` to the first index whose id is at least
    /// `target`.
    fn seek(list: &Vec<DocId>, from: usize, target: u32) -> (r: usize)
        requires
            from <= list@.len(),
        ensures
            from <= r <= list@.len(),
            forall|k: int| from <= k < r ==> list@[k] < target,
            r < list@.len() ==> list@[r as int] >= target,
    {
        let mut i = from;
        while i < list.len() && list[i] < target
            invariant
                from <= i <= list@.len(),
                forall|k: int| from <= k < i ==> list@[k] < target,
            decreases list@.len() - i,
        {
            i = i + 1;
        }
        i
    }

    /// The remainder of cursor `j` holds `x` exactly when some absolute index
    /// at or past the read position holds it.
    proof fn lemma_rem_contains_abs(self, j: int, x: u32)
        requires
            0 <= j < self.n(),
            self.aligned(),
            0 <= self.position(j) <= self.list(j).len(),
            self.rem(j).contains(x),
        ensures
            exists|a: int|
                self.position(j) <= a < self.list(j).len() && #[trigger] self.list(j)[a] == x,
    {
        let k = choose|k: int| 0 <= k < self.rem(j).len() && self.rem(j)[k] == x;
        assert(self.list(j)[self.position(j) + k] == x);
    }

    /// Any id at or past the read position is still in the remainder.
    proof fn lemma_abs_in_rem(self, j: int, a: int)
        requires
            0 <= j < self.n(),
            self.aligned(),
            0 <= self.position(j) <= self.list(j).len(),
            self.position(j) <= a < self.list(j).len(),
        ensures
            self.rem(j).contains(self.list(j)[a]),
    {
        assert(self.rem(j)[a - self.position(j)] == self.list(j)[a]);
    }

    /// Yields the least id still held by every cursor, consuming it from each,
    /// or reports that no common id remains; after that the intersection stays
    /// empty. Ids come out strictly ascending, each exactly once.
    pub fn next(&mut self) -> (r: Option<DocId>)
        requires
            old(self).wf(),
        ensures
            final(self).wf(),
            final(self).n() == old(self).n(),
            forall|j: int| 0 <= j < old(self).n() ==> final(self).list(j) == old(self).list(j),
            match r {
                Some(d) => {
                    &&& old(self).pending(d)
                    &&& forall|x: u32| old(self).pending(x) ==> x >= d
                    &&& forall|x: u32|
                        final(self).pending(x) <==> (old(self).pending(x) && x > d)
                },
                None => {
                    &&& forall|x: u32| !old(self).pending(x)
                    &&& forall|x: u32| !final(self).pending(x)
                },
            },
    {
        let n = self.lists.len();
        if n == 0 {
            return None;
        }
        let p0 = self.positions[0];
        let l0 = self.lists[0].len();
        if p0 >= l0 {
            proof {
                assert(old(self).rem(0).len() == 0);
                assert forall|x: u32| !old(self).pending(x) by {
                    if old(self).pending(x) {
                        assert(old(self).rem(0).contains(x));
                    }
                }
            }
            return None;
        }
        let mut cand: u32 = self.lists[0][p0];
        let mut i: usize = 1;
        proof {
            assert(self.position(0) == p0 as int);
            assert forall|x: u32| old(self).pending(x) implies x >= cand by {
                assert(old(self).rem(0).contains(x));
                old(self).lemma_rem_contains_abs(0, x);
                let a = choose|a: int|
                    old(self).position(0) <= a < old(self).list(0).len() && #[trigger] old(
                        self,
                    ).list(0)[a] == x;
                assert(old(self).list(0)[p0 as int] == cand);
            }
        }
        while i < n
            invariant
                old(self).wf(),
                self.wf(),
                n == self.n(),
                n == old(self).n(),
                n >= 1,
                1 <= i <= n,
                forall|j: int| 0 <= j < n ==> self.list(j) == old(self).list(j),
                forall|j: int|
                    0 <= j < n ==> old(self).position(j) <= #[trigger] self.position(j),
                // cursor 0 sits exactly on the candidate
                self.position(0) < self.list(0).len(),
                self.list(0)[self.position(0)] == cand,
                // every already-agreed cursor sits exactly on the candidate
                forall|j: int|
                    1 <= j < i ==> #[trigger] self.position(j) < self.list(j).len()
                        && self.list(j)[self.position(j)] == cand,
                // no id at or above the candidate has been consumed
                forall|j: int, x: u32|
                    0 <= j < n && #[trigger] old(self).rem(j).contains(x) && x >= cand
                        ==> self.rem(j).contains(x),
                // nothing pending lies below the candidate
                forall|x: u32| old(self).pending(x) ==> x >= cand,
            decreases self.list(0).len() - self.position(0), n - i,
        {
            let ghost pre = *self;
            let pi = self.positions[i];
            proof {
                assert(pre.position(i as int) <= pre.list(i as int).len());
            }
            let np = Self::seek(&self.lists[i], pi, cand);
            self.positions.set(i, np);
            proof {
                // carry every fact about the untouched cursors across the write
                assert(self.n() == n);
                assert(self.aligned());
                assert(self.position(i as int) == np as int);
                assert forall|j2: int| 0 <= j2 < n implies #[trigger] self.list(j2) == pre.list(
                    j2,
                ) by {}
                assert forall|j2: int|
                    0 <= j2 < n && j2 != i as int implies #[trigger] self.position(j2)
                        == pre.position(j2) by {}
                assert forall|j2: int| 0 <= j2 < n implies self.list(j2) == old(self).list(
                    j2,
                ) by {
                    assert(pre.list(j2) == old(self).list(j2));
                }
                assert forall|j2: int|
                    0 <= j2 < n implies old(self).position(j2) <= #[trigger] self.position(
                    j2,
                ) by {
                    assert(old(self).position(j2) <= pre.position(j2));
                }
                assert forall|j2: int|
                    0 <= j2 < n implies 0 <= #[trigger] self.position(j2) <= self.list(
                    j2,
                ).len() by {
                    assert(pre.position(j2) <= pre.list(j2).len());
                }
                assert forall|j2: int|
                    0 <= j2 < n implies strictly_increasing(#[trigger] self.list(j2)) by {
                    assert(strictly_increasing(pre.list(j2)));
                }
                assert(self.wf());
                assert(self.position(0) == pre.position(0));
                assert forall|j2: int|
                    1 <= j2 < i as int implies #[trigger] self.position(j2) < self.list(
                    j2,
                ).len() && self.list(j2)[self.position(j2)] == cand by {
                    assert(pre.position(j2) < pre.list(j2).len());
                    assert(pre.list(j2)[pre.position(j2)] == cand);
                }
                assert forall|j2: int, x: u32|
                    0 <= j2 < n && #[trigger] old(self).rem(j2).contains(x) && x >= cand
                        implies self.rem(j2).contains(x) by {
                    assert(pre.rem(j2).contains(x));
                    if j2 == i as int {
                        pre.lemma_rem_contains_abs(j2, x);
                        let a = choose|a: int|
                            pre.position(j2) <= a < pre.list(j2).len() && #[trigger] pre.list(
                                j2,
                            )[a] == x;
                        assert(a >= np);
                        self.lemma_abs_in_rem(j2, a);
                    } else {
                        assert(self.rem(j2) == pre.rem(j2));
                    }
                }
            }
            let li = self.lists[i].len();
            if np >= li {
                proof {
                    assert(self.rem(i as int).len() == 0);
                    assert forall|x: u32| !old(self).pending(x) by {
                        if old(self).pending(x) {
                            assert(x >= cand);
                            assert(old(self).rem(i as int).contains(x));
                            assert(self.rem(i as int).contains(x));
                        }
                    }
                    assert forall|x: u32| !self.pending(x) by {
                        if self.pending(x) {
                            assert(self.rem(i as int).contains(x));
                        }
                    }
                }
                return None;
            }
            let v = self.lists[i][np];
            if v == cand {
                i = i + 1;
            } else {
                proof {
                    assert(v > cand);
                    assert forall|x: u32| old(self).pending(x) implies x >= v by {
                        assert(old(self).rem(i as int).contains(x));
                        assert(x >= cand);
                        assert(self.rem(i as int).contains(x));
                        self.lemma_rem_contains_abs(i as int, x);
                        let a = choose|a: int|
                            self.position(i as int) <= a < self.list(i as int).len()
                                && #[trigger] self.list(i as int)[a] == x;
                        assert(self.list(i as int)[np as int] == v);
                    }
                }
                let ghost pre0 = *self;
                let p0c = self.positions[0];
                proof {
                    assert(pre0.position(0) <= pre0.list(0).len());
                }
                let np0 = Self::seek(&self.lists[0], p0c, v);
                self.positions.set(0, np0);
                proof {
                    assert(self.n() == n);
                    assert(self.aligned());
                    assert(self.position(0) == np0 as int);
                    assert forall|j2: int| 0 <= j2 < n implies #[trigger] self.list(j2)
                        == pre0.list(j2) by {}
                    assert forall|j2: int|
                        0 <= j2 < n && j2 != 0 implies #[trigger] self.position(j2)
                            == pre0.position(j2) by {}
                    assert forall|j2: int| 0 <= j2 < n implies self.list(j2) == old(self).list(
                        j2,
                    ) by {
                        assert(pre0.list(j2) == old(self).list(j2));
                    }
                    assert forall|j2: int|
                        0 <= j2 < n implies old(self).position(j2) <= #[trigger] self.position(
                        j2,
                    ) by {
                        assert(old(self).position(j2) <= pre0.position(j2));
                    }
                    assert forall|j2: int|
                        0 <= j2 < n implies 0 <= #[trigger] self.position(j2) <= self.list(
                        j2,
                    ).len() by {
                        assert(pre0.position(j2) <= pre0.list(j2).len());
                    }
                    assert forall|j2: int|
                        0 <= j2 < n implies strictly_increasing(#[trigger] self.list(j2)) by {
                        assert(strictly_increasing(pre0.list(j2)));
                    }
                    assert(self.wf());
                    assert forall|j2: int, x: u32|
                        0 <= j2 < n && #[trigger] old(self).rem(j2).contains(x) && x >= v
                            implies self.rem(j2).contains(x) by {
                        assert(x >= cand);
                        assert(pre0.rem(j2).contains(x));
                        if j2 == 0 {
                            pre0.lemma_rem_contains_abs(0, x);
                            let a = choose|a: int|
                                pre0.position(0) <= a < pre0.list(0).len() && #[trigger] pre0.list(
                                    0,
                                )[a] == x;
                            assert(a >= np0);
                            self.lemma_abs_in_rem(0, a);
                        } else {
                            assert(self.rem(j2) == pre0.rem(j2));
                        }
                    }
                }
                let l0b = self.lists[0].len();
                if np0 >= l0b {
                    proof {
                        assert(self.rem(0).len() == 0);
                        assert forall|x: u32| !old(self).pending(x) by {
                            if old(self).pending(x) {
                                assert(x >= v);
                                assert(old(self).rem(0).contains(x));
                                assert(self.rem(0).contains(x));
                            }
                        }
                        assert forall|x: u32| !self.pending(x) by {
                            if self.pending(x) {
                                assert(self.rem(0).contains(x));
                            }
                        }
                    }
                    return None;
                }
                cand = self.lists[0][np0];
                proof {
                    assert(cand >= v);
                    assert forall|x: u32| old(self).pending(x) implies x >= cand by {
                        assert(x >= v);
                        assert(old(self).rem(0).contains(x));
                        assert(self.rem(0).contains(x));
                        self.lemma_rem_contains_abs(0, x);
                        let a = choose|a: int|
                            self.position(0) <= a < self.list(0).len() && #[trigger] self.list(
                                0,
                            )[a] == x;
                        assert(self.list(0)[np0 as int] == cand);
                    }
                    assert forall|j2: int, x: u32|
                        0 <= j2 < n && #[trigger] old(self).rem(j2).contains(x) && x >= cand
                            implies self.rem(j2).contains(x) by {
                        assert(x >= v);
                    }
                }
                i = 1;
            }
        }
        // every cursor sits exactly on `cand`: it is the least pending id
        let ghost mid = *self;
        proof {
            assert forall|j: int| 0 <= j < n implies #[trigger] old(self).rem(j).contains(
                cand,
            ) by {
                assert(mid.list(j)[mid.position(j)] == cand);
                old(self).lemma_abs_in_rem(j, mid.position(j));
            }
            assert(old(self).pending(cand));
        }
        let mut j: usize = 0;
        while j < n
            invariant
                mid.wf(),
                n == mid.n(),
                self.aligned(),
                self.n() == n,
                0 <= j <= n,
                forall|jj: int| 0 <= jj < n ==> #[trigger] self.list(jj) == mid.list(jj),
                forall|jj: int|
                    0 <= jj < n ==> #[trigger] mid.position(jj) < mid.list(jj).len()
                        && mid.list(jj)[mid.position(jj)] == cand,
                forall|jj: int|
                    0 <= jj < j ==> #[trigger] self.position(jj) == mid.position(jj) + 1,
                forall|jj: int|
                    j <= jj < n ==> #[trigger] self.position(jj) == mid.position(jj),
            decreases n - j,
        {
            let ghost before = *self;
            let pj = self.positions[j];
            let lj = self.lists[j].len();
            proof {
                assert(self.position(j as int) == pj as int);
                assert(self.list(j as int) == mid.list(j as int));
                assert(pj as int == mid.position(j as int));
                assert(pj < lj);
            }
            self.positions.set(j, pj + 1);
            proof {
                assert(self.aligned());
                assert(self.n() == n);
                assert forall|jj: int| 0 <= jj < n implies #[trigger] self.list(jj) == mid.list(
                    jj,
                ) by {
                    assert(before.list(jj) == mid.list(jj));
                }
                assert forall|jj: int|
                    0 <= jj < j + 1 implies #[trigger] self.position(jj) == mid.position(jj)
                        + 1 by {
                    if jj < j {
                        assert(before.position(jj) == mid.position(jj) + 1);
                        assert(self.position(jj) == before.position(jj));
                    } else {
                        assert(self.position(jj) == pj + 1);
                    }
                }
                assert forall|jj: int|
                    j + 1 <= jj < n implies #[trigger] self.position(jj) == mid.position(
                    jj,
                ) by {
                    assert(before.position(jj) == mid.position(jj));
                    assert(self.position(jj) == before.position(jj));
                }
            }
            j = j + 1;
        }
        proof {
            assert forall|jj: int|
                0 <= jj < n implies 0 <= #[trigger] self.position(jj) <= self.list(
                jj,
            ).len() by {
                assert(self.position(jj) == mid.position(jj) + 1);
                assert(self.list(jj) == mid.list(jj));
                assert(mid.position(jj) < mid.list(jj).len());
            }
            assert forall|jj: int|
                0 <= jj < n implies strictly_increasing(#[trigger] self.list(jj)) by {
                assert(self.list(jj) == mid.list(jj));
                assert(strictly_increasing(mid.list(jj)));
            }
            assert(self.wf());
            assert forall|j2: int| 0 <= j2 < n implies self.list(j2) == old(self).list(
                j2,
            ) by {
                assert(self.list(j2) == mid.list(j2));
                assert(mid.list(j2) == old(self).list(j2));
            }
            assert forall|x: u32| self.pending(x) implies (old(self).pending(x) && x
                > cand) by {
                assert forall|jj: int| 0 <= jj < n implies #[trigger] old(self).rem(
                    jj,
                ).contains(x) by {
                    assert(self.rem(jj).contains(x));
                    self.lemma_rem_contains_abs(jj, x);
                    let a = choose|a: int|
                        self.position(jj) <= a < self.list(jj).len() && #[trigger] self.list(
                            jj,
                        )[a] == x;
                    assert(old(self).position(jj) <= mid.position(jj));
                    old(self).lemma_abs_in_rem(jj, a);
                }
                assert(self.rem(0).contains(x));
                self.lemma_rem_contains_abs(0, x);
                let a = choose|a: int|
                    self.position(0) <= a < self.list(0).len() && #[trigger] self.list(0)[a]
                        == x;
                assert(mid.list(0)[mid.position(0)] == cand);
                assert(a > mid.position(0));
            }
            assert forall|x: u32| old(self).pending(x) && x > cand implies self.pending(
                x,
            ) by {
                assert forall|jj: int| 0 <= jj < n implies #[trigger] self.rem(jj).contains(
                    x,
                ) by {
                    assert(old(self).rem(jj).contains(x));
                    assert(mid.rem(jj).contains(x));
                    mid.lemma_rem_contains_abs(jj, x);
                    let a = choose|a: int|
                        mid.position(jj) <= a < mid.list(jj).len() && #[trigger] mid.list(
                            jj,
                        )[a] == x;
                    assert(mid.list(jj)[mid.position(jj)] == cand);
                    assert(a != mid.position(jj));
                    self.lemma_abs_in_rem(jj, a);
                }
            }
        }
        Some(cand)
    }
}

} // verus!
