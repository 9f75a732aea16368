//! Arcs of the 32-bit circular keyspace and sets of them.
use vstd::prelude::*;

verus! {

/// Size of the circular keyspace.
pub const KEYSPACE: u64 = 0x1_0000_0000;

/// How many parts an arc set is split into for op blooms.
pub const NUM_PARTS: u64 = 4;

/// Whether `loc` lies in the arc that starts at `start` and runs for `len`
/// locations clockwise, wrapping past the top of the keyspace.
pub open spec fn in_arc(start: u32, len: u64, loc: u32) -> bool {
    (loc as int - start as int) % (KEYSPACE as int) < len as int
}

/// Whether `loc` lies in the half-open segment `[seg.0, seg.1)`.
pub open spec fn in_segment(seg: (u64, u64), loc: int) -> bool {
    seg.0 <= loc < seg.1
}

/// Whether some segment of `segs` holds `loc`.
pub open spec fn segments_contain(segs: Seq<(u64, u64)>, loc: int) -> bool {
    exists|i: int| 0 <= i < segs.len() && #[trigger] in_segment(segs[i], loc)
}

proof fn lemma_push_segment(segs: Seq<(u64, u64)>, seg: (u64, u64))
    ensures
        forall|loc: int| #[trigger]
            segments_contain(segs.push(seg), loc) == (segments_contain(segs, loc) || in_segment(
                seg,
                loc,
            )),
{
    assert forall|loc: int| #[trigger]
        segments_contain(segs.push(seg), loc) == (segments_contain(segs, loc) || in_segment(
            seg,
            loc,
        )) by {
        let t = segs.push(seg);
        if segments_contain(t, loc) {
            let i = choose|i: int| 0 <= i < t.len() && #[trigger] in_segment(t[i], loc);
            if i < segs.len() {
                assert(in_segment(segs[i], loc));
            }
        }
        if segments_contain(segs, loc) {
            let i = choose|i: int| 0 <= i < segs.len() && #[trigger] in_segment(segs[i], loc);
            assert(in_segment(t[i], loc));
        }
        if in_segment(seg, loc) {
            assert(in_segment(t[segs.len() as int], loc));
        }
    }
}

fn extend_segments(out: &mut Vec<(u64, u64)>, src: &Vec<(u64, u64)>)
    ensures
        forall|loc: int| #[trigger]
            segments_contain(final(out)@, loc) == (segments_contain(old(out)@, loc)
                || segments_contain(src@, loc)),
{
    let mut j: usize = 0;
    while j < src.len()
        invariant
            0 <= j <= src@.len(),
            forall|loc: int| #[trigger]
                segments_contain(out@, loc) == (segments_contain(old(out)@, loc) || exists|q: int|
                    0 <= q < j && #[trigger] in_segment(src@[q], loc)),
        decreases src@.len() - j,
    {
        let seg = src[j];
        let ghost prev = out@;
        proof {
            lemma_push_segment(prev, seg);
        }
        out.push(seg);
        proof {
            assert forall|loc: int| #[trigger]
                segments_contain(out@, loc) == (segments_contain(old(out)@, loc) || exists|q: int|
                    0 <= q < j + 1 && #[trigger] in_segment(src@[q], loc)) by {
                if exists|q: int| 0 <= q < j + 1 && #[trigger] in_segment(src@[q], loc) {
                    let q = choose|q: int| 0 <= q < j + 1 && #[trigger] in_segment(src@[q], loc);
                    if q < j {
                        assert(exists|q: int| 0 <= q < j && #[trigger] in_segment(src@[q], loc));
                    }
                }
                if in_segment(seg, loc) {
                    assert(in_segment(src@[j as int], loc));
                }
            }
        }
        j = j + 1;
    }
}

/// A half-open arc: `len` locations clockwise from `start`. A length of zero
/// is the empty arc and a length of `KEYSPACE` the full circle.
#[derive(Clone, Copy, Debug, PartialEq, Eq)]
pub struct ArcInterval {
    pub start: u32,
    pub len: u64,
}

impl ArcInterval {
    pub open spec fn valid(&self) -> bool {
        self.len <= KEYSPACE
    }

    /// The locations of the arc.
    pub open spec fn locations(&self) -> Set<u32> {
        Set::new(|loc: u32| in_arc(self.start, self.len, loc))
    }

    pub fn full() -> (r: ArcInterval)
        ensures
            r.valid(),
            r.locations() == Set::new(|loc: u32| true),
    {
        let r = ArcInterval { start: 0, len: KEYSPACE };
        proof {
            assert(r.locations() =~= Set::new(|loc: u32| true));
        }
        r
    }

    pub fn empty() -> (r: ArcInterval)
        ensures
            r.valid(),
            r.locations() == Set::<u32>::empty(),
    {
        let r = ArcInterval { start: 0, len: 0 };
        proof {
            assert(r.locations() =~= Set::<u32>::empty());
        }
        r
    }

    /// Whether the arc holds `loc`.
    pub fn contains(&self, loc: u32) -> (r: bool)
        ensures
            r == self.locations().contains(loc),
    {
        let d: u64 = if loc >= self.start {
            (loc - self.start) as u64
        } else {
            (loc as u64 + KEYSPACE) - self.start as u64
        };
        proof {
            let k = KEYSPACE as int;
            let x = loc as int - self.start as int;
            if loc >= self.start {
                assert(x % k == x) by (nonlinear_arith)
                    requires 0 <= x < k;
            } else {
                assert(x % k == x + k) by (nonlinear_arith)
                    requires -k < x < 0;
            }
        }
        d < self.len
    }
}

/// A union of arcs, kept as half-open segments `[lo, hi)` that do not wrap.
#[derive(Clone, Debug, PartialEq, Eq)]
pub struct ArcSet {
    segments: Vec<(u64, u64)>,
}

impl View for ArcSet {
    type V = Set<u32>;

    closed spec fn view(&self) -> Set<u32> {
        Set::new(|loc: u32| segments_contain(self.segments@, loc as int))
    }
}

impl ArcSet {
    pub fn new() -> (r: ArcSet)
        ensures
            r@ == Set::<u32>::empty(),
    {
        let r = ArcSet { segments: Vec::new() };
        proof {
            assert(r@ =~= Set::<u32>::empty());
        }
        r
    }

    /// The segments the set is kept as.
    pub closed spec fn segment_seq(&self) -> Seq<(u64, u64)> {
        self.segments@
    }

    /// The segments the set is kept as.
    pub fn segments(&self) -> (r: Vec<(u64, u64)>)
        ensures
            r@ == self.segment_seq(),
    {
        let mut out: Vec<(u64, u64)> = Vec::new();
        let mut i: usize = 0;
        while i < self.segments.len()
            invariant
                0 <= i <= self.segments@.len(),
                out@ == self.segments@.take(i as int),
            decreases self.segments@.len() - i,
        {
            out.push(self.segments[i]);
            proof {
                assert(self.segments@.take(i + 1) =~= self.segments@.take(i as int).push(self.segments@[i as int]));
            }
            i = i + 1;
        }
        proof {
            assert(self.segments@.take(i as int) =~= self.segments@);
        }
        out
    }

    /// The set kept as the given segments.
    pub fn from_segments(segments: Vec<(u64, u64)>) -> (r: ArcSet)
        ensures
            r.segment_seq() == segments@,
    {
        ArcSet { segments }
    }

    /// A second set with the same locations.
    pub fn duplicate(&self) -> (r: ArcSet)
        ensures
            r@ == self@,
    {
        let mut out: Vec<(u64, u64)> = Vec::new();
        extend_segments(&mut out, &self.segments);
        let r = ArcSet { segments: out };
        proof {
            assert forall|loc: u32| r@.contains(loc) == self@.contains(loc) by {
                assert(segments_contain(Seq::<(u64, u64)>::empty(), loc as int) == false);
            }
            assert(r@ =~= self@);
        }
        r
    }

    /// The locations of one arc.
    pub fn from_interval(arc: &ArcInterval) -> (r: ArcSet)
        requires
            arc.valid(),
        ensures
            r@ == arc.locations(),
    {
        let mut segments: Vec<(u64, u64)> = Vec::new();
        let start = arc.start as u64;
        let end = start + arc.len;
        proof {
            lemma_push_segment(Seq::empty(), (start, if end <= KEYSPACE { end } else { KEYSPACE }));
        }
        if end <= KEYSPACE {
            segments.push((start, end));
        } else {
            segments.push((start, KEYSPACE));
            let ghost s1 = segments@;
            proof {
                lemma_push_segment(s1, (0, (end - KEYSPACE) as u64));
            }
            segments.push((0, end - KEYSPACE));
        }
        let r = ArcSet { segments };
        proof {
            assert forall|loc: u32| r@.contains(loc) == arc.locations().contains(loc) by {
                let k = KEYSPACE as int;
                let x = loc as int - start as int;
                if loc as int >= start as int {
                    assert(x % k == x) by (nonlinear_arith)
                        requires 0 <= x < k;
                } else {
                    assert(x % k == x + k) by (nonlinear_arith)
                        requires -k < x < 0;
                }
                assert(segments_contain(Seq::<(u64, u64)>::empty(), loc as int) == false);
            }
            assert(r@ =~= arc.locations());
        }
        r
    }

    /// Whether the set holds `loc`.
    pub fn contains(&self, loc: u32) -> (r: bool)
        ensures
            r == self@.contains(loc),
    {
        let mut i: usize = 0;
        while i < self.segments.len()
            invariant
                0 <= i <= self.segments@.len(),
                forall|j: int| 0 <= j < i ==> !#[trigger] in_segment(self.segments@[j], loc as int),
            decreases self.segments@.len() - i,
        {
            let (lo, hi) = self.segments[i];
            if lo <= loc as u64 && (loc as u64) < hi {
                assert(in_segment(self.segments@[i as int], loc as int));
                return true;
            }
            i = i + 1;
        }
        false
    }

    /// The locations that lie in both sets.
    pub fn intersection(&self, other: &ArcSet) -> (r: ArcSet)
        ensures
            r@ == self@.intersect(other@),
    {
        let a = &self.segments;
        let b = &other.segments;
        let mut out: Vec<(u64, u64)> = Vec::new();
        let mut i: usize = 0;
        while i < a.len()
            invariant
                0 <= i <= a@.len(),
                forall|loc: int| #[trigger]
                    segments_contain(out@, loc) == ((exists|p: int|
                        0 <= p < i && #[trigger] in_segment(a@[p], loc)) && segments_contain(
                        b@,
                        loc,
                    )),
            decreases a@.len() - i,
        {
            let (alo, ahi) = a[i];
            let ghost before = out@;
            let mut j: usize = 0;
            while j < b.len()
                invariant
                    0 <= j <= b@.len(),
                    a@[i as int] == (alo, ahi),
                    forall|loc: int| #[trigger]
                        segments_contain(out@, loc) == (segments_contain(before, loc) || (
                        in_segment((alo, ahi), loc) && exists|q: int|
                            0 <= q < j && #[trigger] in_segment(b@[q], loc))),
                decreases b@.len() - j,
            {
                let (blo, bhi) = b[j];
                let lo = if alo > blo { alo } else { blo };
                let hi = if ahi < bhi { ahi } else { bhi };
                let ghost prev = out@;
                if lo < hi {
                    proof {
                        lemma_push_segment(prev, (lo, hi));
                    }
                    out.push((lo, hi));
                }
                proof {
                    assert forall|loc: int| #[trigger]
                        segments_contain(out@, loc) == (segments_contain(before, loc) || (
                        in_segment((alo, ahi), loc) && exists|q: int|
                            0 <= q < j + 1 && #[trigger] in_segment(b@[q], loc))) by {
                        if in_segment((alo, ahi), loc) && in_segment(b@[j as int], loc) {
                            assert(in_segment((lo, hi), loc));
                        }
                        if exists|q: int| 0 <= q < j + 1 && #[trigger] in_segment(b@[q], loc) {
                            let q = choose|q: int| 0 <= q < j + 1 && #[trigger] in_segment(b@[q], loc);
                            if q < j {
                                assert(exists|q: int| 0 <= q < j && #[trigger] in_segment(b@[q], loc));
                            }
                        }
                    }
                }
                j = j + 1;
            }
            proof {
                assert forall|loc: int| #[trigger]
                    segments_contain(out@, loc) == ((exists|p: int|
                        0 <= p < i + 1 && #[trigger] in_segment(a@[p], loc)) && segments_contain(
                        b@,
                        loc,
                    )) by {
                    if exists|p: int| 0 <= p < i + 1 && #[trigger] in_segment(a@[p], loc) {
                        let p = choose|p: int| 0 <= p < i + 1 && #[trigger] in_segment(a@[p], loc);
                        if p < i {
                            assert(exists|p: int| 0 <= p < i && #[trigger] in_segment(a@[p], loc));
                        }
                    }
                    if segments_contain(b@, loc) {
                        let q = choose|q: int| 0 <= q < b@.len() && #[trigger] in_segment(b@[q], loc);
                        assert(0 <= q < b@.len() && in_segment(b@[q], loc));
                    }
                    if exists|q: int| 0 <= q < b@.len() && #[trigger] in_segment(b@[q], loc) {
                        assert(segments_contain(b@, loc));
                    }
                }
            }
            i = i + 1;
        }
        let r = ArcSet { segments: out };
        proof {
            assert forall|loc: u32| r@.contains(loc) == (self@.contains(loc) && other@.contains(loc)) by {
                assert(segments_contain(out@, loc as int) == (segments_contain(a@, loc as int)
                    && segments_contain(b@, loc as int)));
            }
            assert(r@ =~= self@.intersect(other@));
        }
        r
    }

    /// The locations that lie in either set.
    pub fn union(&self, other: &ArcSet) -> (r: ArcSet)
        ensures
            r@ == self@.union(other@),
    {
        let mut out: Vec<(u64, u64)> = Vec::new();
        extend_segments(&mut out, &self.segments);
        extend_segments(&mut out, &other.segments);
        let r = ArcSet { segments: out };
        proof {
            assert forall|loc: u32| r@.contains(loc) == (self@.contains(loc) || other@.contains(loc)) by {
                assert(segments_contain(Seq::<(u64, u64)>::empty(), loc as int) == false);
            }
            assert(r@ =~= self@.union(other@));
        }
        r
    }

    /// The set of every location.
    pub fn full() -> (r: ArcSet)
        ensures
            r@ == Set::new(|loc: u32| true),
    {
        ArcSet::from_interval(&ArcInterval::full())
    }

    /// The `part`-th of `NUM_PARTS` equal slices of the keyspace.
    pub fn keyspace_part(part: u64) -> (r: ArcSet)
        requires
            part < NUM_PARTS,
        ensures
            r@ == Set::new(|loc: u32| part * (KEYSPACE / NUM_PARTS) <= loc < (part + 1) * (
            KEYSPACE / NUM_PARTS)),
    {
        let lo = part * (KEYSPACE / NUM_PARTS);
        let hi = lo + KEYSPACE / NUM_PARTS;
        let mut segments: Vec<(u64, u64)> = Vec::new();
        proof {
            lemma_push_segment(segments@, (lo, hi));
        }
        segments.push((lo, hi));
        let r = ArcSet { segments };
        proof {
            assert forall|loc: u32| #[trigger] r@.contains(loc) == (lo <= loc < hi) by {
                assert(segments_contain(Seq::<(u64, u64)>::empty(), loc as int) == false);
            }
            assert(r@ =~= Set::new(
                |loc: u32| part * (KEYSPACE / NUM_PARTS) <= loc < (part + 1) * (KEYSPACE / NUM_PARTS),
            ));
        }
        r
    }
}

/// The locations of the `p`-th part of the keyspace.
pub open spec fn part_set(p: int) -> Set<u32> {
    Set::new(
        |loc: u32| p * (KEYSPACE / NUM_PARTS) <= loc < (p + 1) * (KEYSPACE / NUM_PARTS),
    )
}

} // verus!
