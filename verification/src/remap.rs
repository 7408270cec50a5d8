//! Piecewise remapping of integer intervals: a sorted list of
//! source→destination range pairs applied to single values and to batches
//! of intervals, translating covered sub-intervals and passing uncovered
//! ones through unchanged.
use vstd::prelude::*;

verus! {

/// A half-open interval `[start, end)` of unsigned integers.
#[derive(Debug, Clone, Copy, PartialEq, Eq, Structural)]
pub struct Span {
    pub start: usize,
    pub end: usize,
}

impl Span {
    /// `start` does not exceed `end`.
    pub open spec fn wf(&self) -> bool {
        self.start <= self.end
    }

    /// The number of values in the interval.
    pub open spec fn spec_len(&self) -> int {
        self.end - self.start
    }

    /// Whether `v` lies in the interval.
    pub open spec fn spec_contains(&self, v: int) -> bool {
        self.start <= v < self.end
    }
}

/// One translation rule: each value of `source` maps to the value of
/// `dest` at the same offset; the two intervals have equal length.
#[derive(Debug, Clone, Copy, PartialEq, Eq, Structural)]
pub struct MappedRange {
    pub source: Span,
    pub dest: Span,
}

impl MappedRange {
    /// Both intervals are well-formed and of equal length.
    pub open spec fn wf(&self) -> bool {
        &&& self.source.wf()
        &&& self.dest.wf()
        &&& self.dest.spec_len() == self.source.spec_len()
    }
}

/// A batch of translation rules, sorted by source start, with pairwise
/// disjoint source intervals.
#[derive(Debug, Clone, PartialEq, Eq)]
pub struct Mapping {
    pub ranges: Vec<MappedRange>,
}

/// The total number of values covered by the intervals of `s`.
pub open spec fn sum_len(s: Seq<Span>) -> int
    decreases s.len(),
{
    if s.len() == 0 {
        0
    } else {
        sum_len(s.drop_last()) + s.last().spec_len()
    }
}

impl Mapping {
    /// Every rule is well-formed and the source intervals are sorted and
    /// pairwise disjoint.
    pub open spec fn wf(&self) -> bool {
        &&& forall|i: int| 0 <= i < self.ranges@.len() ==> (#[trigger] self.ranges@[i]).wf()
        &&& forall|i: int, j: int|
            0 <= i < j < self.ranges@.len() ==> (#[trigger] self.ranges@[i]).source.end <= (
            #[trigger] self.ranges@[j]).source.start
    }

    /// Where `v` falls in some source interval, `v` translated by that
    /// rule's offset; everywhere else `v` itself.
    pub open spec fn spec_map(&self, v: int) -> int {
        if exists|i: int|
            0 <= i < self.ranges@.len() && (#[trigger] self.ranges@[i]).source.spec_contains(v) {
            let i = choose|i: int|
                0 <= i < self.ranges@.len() && (#[trigger] self.ranges@[i]).source.spec_contains(
                    v,
                );
            self.ranges@[i].dest.start + (v - self.ranges@[i].source.start)
        } else {
            v
        }
    }

    /// Builds a mapping after checking that the rules are sorted, disjoint
    /// and length-preserving; returns the offending rule index otherwise.
    pub fn new(ranges: Vec<MappedRange>) -> (r: Result<Mapping, usize>)
        ensures
            r is Ok <==> (Mapping { ranges }).wf(),
            r is Ok ==> r->Ok_0 == (Mapping { ranges }),
    {
        let mut i: usize = 0;
        while i < ranges.len()
            invariant
                i <= ranges@.len(),
                forall|j: int| 0 <= j < i ==> (#[trigger] ranges@[j]).wf(),
                forall|j: int|
                    0 < j < i ==> ranges@[j - 1].source.end <= (#[trigger] ranges@[j]).source.start,
            decreases ranges@.len() - i,
        {
            let rr = ranges[i];
            if rr.source.start > rr.source.end || rr.dest.start > rr.dest.end {
                assert(!(#[trigger] (Mapping { ranges }).ranges@[i as int]).wf());
                assert(!(Mapping { ranges }).wf());
                return Err(i);
            }
            if rr.source.end - rr.source.start != rr.dest.end - rr.dest.start {
                assert(!(#[trigger] (Mapping { ranges }).ranges@[i as int]).wf());
                assert(!(Mapping { ranges }).wf());
                return Err(i);
            }
            if i > 0 && ranges[i - 1].source.end > rr.source.start {
                assert((#[trigger] (Mapping { ranges }).ranges@[i as int - 1]).source.end > (
                #[trigger] (Mapping { ranges }).ranges@[i as int]).source.start);
                assert(!(Mapping { ranges }).wf());
                return Err(i);
            }
            i = i + 1;
        }
        proof {
            assert forall|a: int, b: int|
                0 <= a < b < ranges@.len() implies (#[trigger] ranges@[a]).source.end <= (
            #[trigger] ranges@[b]).source.start by {
                lemma_sorted_chain(ranges@, a, b);
            }
        }
        Ok(Mapping { ranges })
    }

    /// Looks `source` up in the sorted rules: the translated value where a
    /// source interval covers it, `source` itself otherwise.
    pub fn map(&self, source: usize) -> (r: usize)
        requires
            self.wf(),
        ensures
            r == self.spec_map(source as int),
    {
        let mut i: usize = 0;
        while i < self.ranges.len()
            invariant
                self.wf(),
                i <= self.ranges@.len(),
                forall|j: int|
                    0 <= j < i ==> !(#[trigger] self.ranges@[j]).source.spec_contains(
                        source as int,
                    ),
            decreases self.ranges@.len() - i,
        {
            let rr = self.ranges[i];
            if rr.source.start <= source && source < rr.source.end {
                proof {
                    lemma_cover_unique(self, source as int, i as int);
                }
                return rr.dest.start + (source - rr.source.start);
            }
            i = i + 1;
        }
        proof {
            assert(!exists|i: int|
                0 <= i < self.ranges@.len() && (#[trigger] self.ranges@[i]).source.spec_contains(
                    source as int,
                ));
        }
        source
    }
}

/// The first rule, in list order, whose source interval ends past `p`,
/// scanning from index `i`. Under `wf` this is the only rule that can
/// cover `p`, and where it starts past `p` its start is the nearest rule
/// boundary to the right.
pub open spec fn scan_rule(ranges: Seq<MappedRange>, i: int, p: int) -> Option<int>
    decreases ranges.len() - i,
{
    if i < 0 || i >= ranges.len() {
        None
    } else if ranges[i].source.end > p {
        Some(i)
    } else {
        scan_rule(ranges, i + 1, p)
    }
}

/// The output pieces for the part of span `s` from position `p` on,
/// appended to the pieces `acc` already emitted: the overlap with a
/// covering rule is translated by that rule's offset, the gap up to the
/// next rule (or to the end of `s`) passes through unchanged.
pub open spec fn span_pieces(ranges: Seq<MappedRange>, s: Span, p: int, acc: Seq<Span>) -> Seq<Span>
    decreases s.end - p,
{
    if p < s.start || p >= s.end {
        acc
    } else {
        match scan_rule(ranges, 0, p) {
            Some(i) => {
                let rr = ranges[i];
                if rr.source.start <= p {
                    let piece_end: int = if s.end < rr.source.end {
                        s.end as int
                    } else {
                        rr.source.end as int
                    };
                    let piece = Span {
                        start: (rr.dest.start + (p - rr.source.start)) as usize,
                        end: (rr.dest.start + (piece_end - rr.source.start)) as usize,
                    };
                    if piece_end <= p {
                        acc
                    } else {
                        span_pieces(ranges, s, piece_end, acc.push(piece))
                    }
                } else {
                    let piece_end: int = if s.end < rr.source.start {
                        s.end as int
                    } else {
                        rr.source.start as int
                    };
                    let piece = Span { start: p as usize, end: piece_end as usize };
                    if piece_end <= p {
                        acc
                    } else {
                        span_pieces(ranges, s, piece_end, acc.push(piece))
                    }
                }
            },
            None => acc.push(Span { start: p as usize, end: s.end }),
        }
    }
}

/// The output pieces of one input span: translated overlaps and identity
/// gaps, left to right; an empty span contributes nothing.
pub open spec fn spec_map_span(ranges: Seq<MappedRange>, s: Span) -> Seq<Span> {
    span_pieces(ranges, s, s.start as int, Seq::empty())
}

/// The output of remapping a batch of spans: the pieces of each input
/// span in order, concatenated in input order.
pub open spec fn spec_map_range(ranges: Seq<MappedRange>, sources: Seq<Span>) -> Seq<Span>
    decreases sources.len(),
{
    if sources.len() == 0 {
        Seq::empty()
    } else {
        spec_map_range(ranges, sources.drop_last()) + spec_map_span(ranges, sources.last())
    }
}

/// The spans after every stage has remapped, stage after stage.
pub open spec fn spec_apply_chain(stages: Seq<Mapping>, sources: Seq<Span>) -> Seq<Span>
    decreases stages.len(),
{
    if stages.len() == 0 {
        sources
    } else {
        spec_apply_chain(stages.skip(1), spec_map_range(stages[0].ranges@, sources))
    }
}

impl Mapping {
    /// Remaps a batch of intervals: covered sub-intervals are translated,
    /// uncovered sub-intervals pass through unchanged. The output covers
    /// exactly as many values as the input, and the empty mapping returns
    /// non-empty inputs unchanged.
    pub fn map_range(&self, sources: Vec<Span>) -> (r: Vec<Span>)
        requires
            self.wf(),
            forall|k: int| 0 <= k < sources@.len() ==> (#[trigger] sources@[k]).wf(),
        ensures
            r@ == spec_map_range(self.ranges@, sources@),
            forall|k: int| 0 <= k < r@.len() ==> (#[trigger] r@[k]).wf(),
            sum_len(r@) == sum_len(sources@),
            self.ranges@.len() == 0 && (forall|k: int|
                0 <= k < sources@.len() ==> (#[trigger] sources@[k]).spec_len() > 0) ==> r@
                == sources@,
    {
        let ghost all_nonempty = forall|k: int|
            0 <= k < sources@.len() ==> (#[trigger] sources@[k]).spec_len() > 0;
        let mut r: Vec<Span> = Vec::new();
        let mut si: usize = 0;
        assert(sources@.take(0) =~~= Seq::<Span>::empty());
        while si < sources.len()
            invariant
                self.wf(),
                forall|k: int| 0 <= k < sources@.len() ==> (#[trigger] sources@[k]).wf(),
                all_nonempty == (forall|k: int|
                    0 <= k < sources@.len() ==> (#[trigger] sources@[k]).spec_len() > 0),
                si <= sources@.len(),
                forall|k: int| 0 <= k < r@.len() ==> (#[trigger] r@[k]).wf(),
                sum_len(r@) == sum_len(sources@.take(si as int)),
                r@ == spec_map_range(self.ranges@, sources@.take(si as int)),
                self.ranges@.len() == 0 && all_nonempty ==> r@ == sources@.take(si as int),
            decreases sources@.len() - si,
        {
            let s = sources[si];
            let ghost rprefix = r@;
            let ghost mut pieces: Seq<Span> = Seq::empty();
            proof {
                assert(r@ =~~= rprefix + pieces);
            }
            let mut p: usize = s.start;
            while p < s.end
                invariant
                    self.wf(),
                    forall|k: int| 0 <= k < sources@.len() ==> (#[trigger] sources@[k]).wf(),
                    all_nonempty == (forall|k: int|
                        0 <= k < sources@.len() ==> (#[trigger] sources@[k]).spec_len() > 0),
                    si < sources@.len(),
                    s == sources@[si as int],
                    s.start <= p <= s.end,
                    forall|k: int| 0 <= k < r@.len() ==> (#[trigger] r@[k]).wf(),
                    sum_len(r@) == sum_len(sources@.take(si as int)) + (p - s.start),
                    rprefix == spec_map_range(self.ranges@, sources@.take(si as int)),
                    r@ == rprefix + pieces,
                    span_pieces(self.ranges@, s, p as int, pieces) == spec_map_span(
                        self.ranges@,
                        s,
                    ),
                    self.ranges@.len() == 0 && all_nonempty ==> ((p == s.start && r@
                        == sources@.take(si as int)) || (p == s.end && r@ == sources@.take(
                        si as int,
                    ).push(s))),
                decreases s.end - p,
            {
                // Find the rule covering `p`, or learn that none does and
                // where the next rule starts.
                let mut i: usize = 0;
                let mut found: Option<usize> = None;
                let mut next_start: Option<usize> = None;
                while i < self.ranges.len() && found.is_none() && next_start.is_none()
                    invariant
                        self.wf(),
                        i <= self.ranges@.len(),
                        found is Some ==> {
                            let fi = found->0 as int;
                            &&& 0 <= fi < self.ranges@.len()
                            &&& self.ranges@[fi].source.spec_contains(p as int)
                            &&& scan_rule(self.ranges@, 0, p as int) == Some(fi)
                        },
                        next_start is Some ==> exists|j: int|
                            0 <= j < self.ranges@.len() && (#[trigger] self.ranges@[j]).source.start
                                == next_start->0 && next_start->0 > p,
                        found is None && next_start is Some ==> {
                            let sr = scan_rule(self.ranges@, 0, p as int);
                            &&& sr is Some
                            &&& self.ranges@[sr->0].source.start == next_start->0
                            &&& self.ranges@[sr->0].source.start > p
                        },
                        found is None && next_start is None ==> scan_rule(
                            self.ranges@,
                            0,
                            p as int,
                        ) == scan_rule(self.ranges@, i as int, p as int),
                        found is None && next_start is None ==> forall|j: int|
                            0 <= j < i ==> (#[trigger] self.ranges@[j]).source.end <= p,
                        found is None && next_start is Some ==> forall|j: int|
                            0 <= j < self.ranges@.len() && (#[trigger] self.ranges@[j]).source.start
                                <= p ==> self.ranges@[j].source.end <= p,
                    decreases self.ranges@.len() - i,
                {
                    let rr = self.ranges[i];
                    if rr.source.end > p {
                        proof {
                            assert(scan_rule(self.ranges@, i as int, p as int) == Some(i as int));
                        }
                        if rr.source.start <= p {
                            found = Some(i);
                        } else {
                            next_start = Some(rr.source.start);
                            proof {
                                assert forall|j: int|
                                    0 <= j < self.ranges@.len() && (
                                    #[trigger] self.ranges@[j]).source.start <= p implies self.ranges@[j].source.end
                                    <= p by {
                                    if j >= i {
                                        assert(self.ranges@[i as int].source.end
                                            <= self.ranges@[j].source.start || j == i);
                                    }
                                }
                            }
                        }
                    } else {
                        proof {
                            assert(scan_rule(self.ranges@, i as int, p as int) == scan_rule(
                                self.ranges@,
                                i as int + 1,
                                p as int,
                            ));
                        }
                    }
                    i = i + 1;
                }
                proof {
                    if found is None && next_start is None {
                        assert(scan_rule(self.ranges@, i as int, p as int) is None);
                        assert(scan_rule(self.ranges@, 0, p as int) is None);
                        assert forall|j: int|
                            0 <= j < self.ranges@.len() implies !(
                        #[trigger] self.ranges@[j]).source.spec_contains(p as int) by {}
                    }
                }
                let ghost prev_r = r@;
                let ghost p_old = p as int;
                let ghost pieces_old = pieces;
                let chunk: Span = match (found, next_start) {
                    (Some(fi), _) => {
                        let rr = self.ranges[fi];
                        let chunk_end: usize = if s.end < rr.source.end {
                            s.end
                        } else {
                            rr.source.end
                        };
                        let c = Span {
                            start: rr.dest.start + (p - rr.source.start),
                            end: rr.dest.start + (chunk_end - rr.source.start),
                        };
                        p = chunk_end;
                        c
                    },
                    (None, Some(ns)) => {
                        let chunk_end: usize = if s.end < ns {
                            s.end
                        } else {
                            ns
                        };
                        let c = Span { start: p, end: chunk_end };
                        p = chunk_end;
                        c
                    },
                    (None, None) => {
                        let c = Span { start: p, end: s.end };
                        p = s.end;
                        c
                    },
                };
                r.push(chunk);
                proof {
                    assert(r@.drop_last() =~~= prev_r);
                    assert(sum_len(r@) == sum_len(prev_r) + chunk.spec_len());
                    pieces = pieces.push(chunk);
                    assert(r@ =~~= rprefix + pieces);
                    if found is Some {
                        let fi = found->0 as int;
                        let rr = self.ranges@[fi];
                        assert(rr.wf());
                        let piece_end: int = if s.end < rr.source.end {
                            s.end as int
                        } else {
                            rr.source.end as int
                        };
                        assert(piece_end == p as int);
                        assert(chunk == Span {
                            start: (rr.dest.start + (p_old - rr.source.start)) as usize,
                            end: (rr.dest.start + (piece_end - rr.source.start)) as usize,
                        });
                        assert(span_pieces(self.ranges@, s, p_old, pieces_old) == span_pieces(
                            self.ranges@,
                            s,
                            piece_end,
                            pieces_old.push(chunk),
                        ));
                    } else if next_start is Some {
                        let sr = scan_rule(self.ranges@, 0, p_old);
                        let rr = self.ranges@[sr->0];
                        let piece_end: int = if s.end < rr.source.start {
                            s.end as int
                        } else {
                            rr.source.start as int
                        };
                        assert(piece_end == p as int);
                        assert(chunk == Span { start: p_old as usize, end: piece_end as usize });
                        assert(span_pieces(self.ranges@, s, p_old, pieces_old) == span_pieces(
                            self.ranges@,
                            s,
                            piece_end,
                            pieces_old.push(chunk),
                        ));
                    } else {
                        assert(chunk == Span { start: p_old as usize, end: s.end });
                        assert(span_pieces(self.ranges@, s, p_old, pieces_old) == pieces_old.push(
                            chunk,
                        ));
                        assert(span_pieces(self.ranges@, s, p as int, pieces) == pieces);
                    }
                }
            }
            proof {
                if self.ranges@.len() == 0 && all_nonempty {
                    assert(sources@[si as int].spec_len() > 0);
                    assert(r@ == sources@.take(si as int).push(s));
                    assert(sources@.take(si as int + 1) =~~= sources@.take(si as int).push(s));
                }
                assert(sources@.take(si as int + 1).drop_last() =~~= sources@.take(si as int));
                assert(sources@.take(si as int + 1).last() == sources@[si as int]);
                assert(sum_len(sources@.take(si as int + 1)) == sum_len(sources@.take(si as int))
                    + sources@[si as int].spec_len());
                assert(span_pieces(self.ranges@, s, p as int, pieces) == pieces);
                assert(pieces == spec_map_span(self.ranges@, s));
                assert(r@ == spec_map_range(self.ranges@, sources@.take(si as int + 1)));
            }
            si = si + 1;
        }
        proof {
            assert(sources@.take(si as int) =~~= sources@);
        }
        r
    }

    /// Applies each stage of `stages` in turn, the output intervals of one
    /// stage becoming the input of the next. The result is the fold of
    /// the per-stage remappings, and the total number of covered values
    /// never changes.
    pub fn apply_chain(stages: &Vec<Mapping>, sources: Vec<Span>) -> (r: Vec<Span>)
        requires
            forall|k: int| 0 <= k < stages@.len() ==> (#[trigger] stages@[k]).wf(),
            forall|k: int| 0 <= k < sources@.len() ==> (#[trigger] sources@[k]).wf(),
        ensures
            r@ == spec_apply_chain(stages@, sources@),
            forall|k: int| 0 <= k < r@.len() ==> (#[trigger] r@[k]).wf(),
            sum_len(r@) == sum_len(sources@),
    {
        let ghost total = sum_len(sources@);
        let mut acc = sources;
        let mut i: usize = 0;
        proof {
            assert(stages@.skip(0) =~~= stages@);
        }
        while i < stages.len()
            invariant
                forall|k: int| 0 <= k < stages@.len() ==> (#[trigger] stages@[k]).wf(),
                i <= stages@.len(),
                forall|k: int| 0 <= k < acc@.len() ==> (#[trigger] acc@[k]).wf(),
                sum_len(acc@) == total,
                spec_apply_chain(stages@.skip(i as int), acc@) == spec_apply_chain(
                    stages@,
                    sources@,
                ),
            decreases stages@.len() - i,
        {
            let ghost prev_acc = acc@;
            acc = stages[i].map_range(acc);
            proof {
                assert(stages@.skip(i as int)[0] == stages@[i as int]);
                assert(stages@.skip(i as int).skip(1) =~~= stages@.skip(i as int + 1));
                assert(spec_apply_chain(stages@.skip(i as int), prev_acc) == spec_apply_chain(
                    stages@.skip(i as int + 1),
                    spec_map_range(stages@[i as int].ranges@, prev_acc),
                ));
            }
            i = i + 1;
        }
        proof {
            assert(stages@.skip(i as int) =~~= Seq::<Mapping>::empty());
            assert(spec_apply_chain(stages@.skip(i as int), acc@) == acc@);
        }
        acc
    }
}

/// In a sorted, disjoint rule list, an earlier source interval ends before
/// a later one starts.
pub proof fn lemma_sorted_chain(ranges: Seq<MappedRange>, a: int, b: int)
    requires
        0 <= a < b < ranges.len(),
        forall|k: int| 0 < k < ranges.len() ==> ranges[k - 1].source.end <= (#[trigger] ranges[k]).source.start,
        forall|k: int| 0 <= k < ranges.len() ==> (#[trigger] ranges[k]).wf(),
    ensures
        ranges[a].source.end <= ranges[b].source.start,
    decreases b - a,
{
    if b == a + 1 {
    } else {
        lemma_sorted_chain(ranges, a, b - 1);
        assert(ranges[b - 1].source.end <= ranges[b].source.start);
        assert(ranges[b - 1].wf());
    }
}

/// What the rule scan reports is faithful: a hit is the first rule
/// ending past `p`, and a miss means every rule ends at or before `p`.
proof fn lemma_scan_char(ranges: Seq<MappedRange>, i0: int, p: int)
    requires
        0 <= i0 <= ranges.len(),
    ensures
        match scan_rule(ranges, i0, p) {
            Some(i) => i0 <= i < ranges.len() && ranges[i].source.end > p && forall|j: int|
                i0 <= j < i ==> (#[trigger] ranges[j]).source.end <= p,
            None => forall|j: int| i0 <= j < ranges.len() ==> (#[trigger] ranges[j]).source.end <= p,
        },
    decreases ranges.len() - i0,
{
    if i0 < ranges.len() {
        if ranges[i0].source.end > p {
        } else {
            lemma_scan_char(ranges, i0 + 1, p);
        }
    }
}

/// On a one-value interval, range remapping agrees with the scalar map:
/// the single output piece is the mapped value's own interval.
pub proof fn lemma_map_range_singleton(m: &Mapping, s: Span)
    requires
        m.wf(),
        s.spec_len() == 1,
    ensures
        spec_map_span(m.ranges@, s) == seq![
            Span {
                start: m.spec_map(s.start as int) as usize,
                end: (m.spec_map(s.start as int) + 1) as usize,
            },
        ],
{
    let ranges = m.ranges@;
    let p = s.start as int;
    assert(s.end == s.start + 1);
    lemma_scan_char(ranges, 0, p);
    match scan_rule(ranges, 0, p) {
        Some(i) => {
            let rr = ranges[i];
            assert(rr.wf());
            if rr.source.start <= p {
                assert(rr.source.spec_contains(p));
                lemma_cover_unique(m, p, i);
                assert(m.spec_map(p) == rr.dest.start + (p - rr.source.start));
                let piece_end: int = if s.end < rr.source.end {
                    s.end as int
                } else {
                    rr.source.end as int
                };
                assert(piece_end == p + 1);
                let piece = Span {
                    start: (rr.dest.start + (p - rr.source.start)) as usize,
                    end: (rr.dest.start + (piece_end - rr.source.start)) as usize,
                };
                assert(span_pieces(ranges, s, p, Seq::empty()) == span_pieces(
                    ranges,
                    s,
                    piece_end,
                    Seq::empty().push(piece),
                ));
                assert(span_pieces(ranges, s, piece_end, Seq::empty().push(piece))
                    == Seq::empty().push(piece));
                assert(spec_map_span(ranges, s) =~~= seq![
                    Span {
                        start: m.spec_map(p) as usize,
                        end: (m.spec_map(p) + 1) as usize,
                    },
                ]);
            } else {
                assert forall|j: int|
                    0 <= j < ranges.len() implies !(#[trigger] ranges[j]).source.spec_contains(
                    p,
                ) by {
                    if j < i {
                        assert(ranges[j].source.end <= p);
                    } else if j > i {
                        assert(ranges[i].source.end <= ranges[j].source.start);
                    }
                }
                assert(m.spec_map(p) == p);
                let piece_end: int = if s.end < rr.source.start {
                    s.end as int
                } else {
                    rr.source.start as int
                };
                assert(piece_end == p + 1);
                let piece = Span { start: p as usize, end: piece_end as usize };
                assert(span_pieces(ranges, s, p, Seq::empty()) == span_pieces(
                    ranges,
                    s,
                    piece_end,
                    Seq::empty().push(piece),
                ));
                assert(span_pieces(ranges, s, piece_end, Seq::empty().push(piece))
                    == Seq::empty().push(piece));
                assert(spec_map_span(ranges, s) =~~= seq![
                    Span {
                        start: m.spec_map(p) as usize,
                        end: (m.spec_map(p) + 1) as usize,
                    },
                ]);
            }
        },
        None => {
            assert forall|j: int|
                0 <= j < ranges.len() implies !(#[trigger] ranges[j]).source.spec_contains(p) by {
                assert(ranges[j].source.end <= p);
            }
            assert(m.spec_map(p) == p);
            let piece = Span { start: p as usize, end: s.end };
            assert(span_pieces(ranges, s, p, Seq::empty()) == Seq::empty().push(piece));
            assert(spec_map_span(ranges, s) =~~= seq![
                Span { start: m.spec_map(p) as usize, end: (m.spec_map(p) + 1) as usize },
            ]);
        },
    }
}

/// Round trip: where `inv` is `m` with source and destination intervals
/// swapped rule for rule, mapping a covered value through `m` and then
/// through `inv` returns the value itself.
pub proof fn lemma_map_round_trip(m: &Mapping, inv: &Mapping, v: int)
    requires
        m.wf(),
        inv.wf(),
        inv.ranges@.len() == m.ranges@.len(),
        forall|i: int|
            0 <= i < m.ranges@.len() ==> (#[trigger] inv.ranges@[i]).source == m.ranges@[i].dest
                && inv.ranges@[i].dest == m.ranges@[i].source,
        exists|i: int|
            0 <= i < m.ranges@.len() && (#[trigger] m.ranges@[i]).source.spec_contains(v),
    ensures
        inv.spec_map(m.spec_map(v)) == v,
{
    let i = choose|i: int|
        0 <= i < m.ranges@.len() && (#[trigger] m.ranges@[i]).source.spec_contains(v);
    lemma_cover_unique(m, v, i);
    let w = m.spec_map(v);
    assert(w == m.ranges@[i].dest.start + (v - m.ranges@[i].source.start));
    assert(m.ranges@[i].wf());
    assert(inv.ranges@[i].source.spec_contains(w));
    lemma_cover_unique(inv, w, i);
    assert(inv.spec_map(w) == inv.ranges@[i].dest.start + (w - inv.ranges@[i].source.start));
}

/// Under `wf`, at most one source interval covers a value, so the covering
/// index `choose` picks is the one found by a scan.
pub proof fn lemma_cover_unique(m: &Mapping, v: int, i: int)
    requires
        m.wf(),
        0 <= i < m.ranges@.len(),
        m.ranges@[i].source.spec_contains(v),
    ensures
        m.spec_map(v) == m.ranges@[i].dest.start + (v - m.ranges@[i].source.start),
{
    let j = choose|j: int|
        0 <= j < m.ranges@.len() && (#[trigger] m.ranges@[j]).source.spec_contains(v);
    if j < i {
        assert(m.ranges@[j].source.end <= m.ranges@[i].source.start);
    } else if j > i {
        assert(m.ranges@[i].source.end <= m.ranges@[j].source.start);
    }
    assert(j == i);
}

} // verus!
