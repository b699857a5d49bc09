//! Counting aligned symbol pairs, and the exact quantities that the
//! distance estimates are computed from.
use vstd::prelude::*;
use vstd::string::*;

use crate::needle::{alignment, Aligner, Scoring};

verus! {

/// Chemical class of a nucleotide symbol.
#[derive(Clone, Copy, Debug, PartialEq, Eq, Structural)]
pub enum NucleotideType {
    Purine,
    Pyrimidine,
    Unknown,
}

/// Class of one aligned symbol.
#[derive(Clone, Copy, Debug, PartialEq, Eq, Structural)]
pub enum SymbolType {
    Gap,
    Missing,
    Nucleotide(NucleotideType),
}

/// The class of a byte; letters are classified without regard to case.
pub open spec fn class_of(x: u8) -> SymbolType {
    if x == 45 {
        SymbolType::Gap
    } else if x == 110 || x == 78 || x == 63 {
        SymbolType::Missing
    } else if x == 97 || x == 65 || x == 103 || x == 71 {
        SymbolType::Nucleotide(NucleotideType::Purine)
    } else if x == 99 || x == 67 || x == 116 || x == 84 {
        SymbolType::Nucleotide(NucleotideType::Pyrimidine)
    } else {
        SymbolType::Nucleotide(NucleotideType::Unknown)
    }
}

/// `-` is a gap; `n`, `N` and `?` are missing data; `a`, `g` are purines and
/// `c`, `t` pyrimidines in either case; every other byte is a nucleotide of
/// unknown class.
pub fn classify(x: u8) -> (r: SymbolType)
    ensures
        r == class_of(x),
{
    match x {
        // '-'
        45 => SymbolType::Gap,
        // 'n', 'N', '?'
        110 | 78 | 63 => SymbolType::Missing,
        // 'a', 'A', 'g', 'G'
        97 | 65 | 103 | 71 => SymbolType::Nucleotide(NucleotideType::Purine),
        // 'c', 'C', 't', 'T'
        99 | 67 | 116 | 84 => SymbolType::Nucleotide(NucleotideType::Pyrimidine),
        _ => SymbolType::Nucleotide(NucleotideType::Unknown),
    }
}

/// The five counters of an accumulator.
pub struct Counts {
    pub total: nat,
    pub common: nat,
    pub gaps: nat,
    pub transitions: nat,
    pub transversions: nat,
}

impl Counts {
    pub open spec fn zero() -> Counts {
        Counts { total: 0, common: 0, gaps: 0, transitions: 0, transversions: 0 }
    }

    /// Every counted position is a gap or a common one, and every
    /// substitution is a common position.
    pub open spec fn wf(self) -> bool {
        &&& self.total == self.common + self.gaps
        &&& self.transitions + self.transversions <= self.common
    }

    pub open spec fn substitutions(self) -> nat {
        self.transitions + self.transversions
    }

    pub open spec fn with_gap(self) -> Counts {
        Counts { total: self.total + 1, gaps: self.gaps + 1, ..self }
    }

    pub open spec fn with_match(self) -> Counts {
        Counts { total: self.total + 1, common: self.common + 1, ..self }
    }

    pub open spec fn with_transition(self) -> Counts {
        Counts {
            total: self.total + 1,
            common: self.common + 1,
            transitions: self.transitions + 1,
            ..self
        }
    }

    pub open spec fn with_transversion(self) -> Counts {
        Counts {
            total: self.total + 1,
            common: self.common + 1,
            transversions: self.transversions + 1,
            ..self
        }
    }
}

/// The counters after one more aligned pair `(x, y)`.
pub open spec fn step(c: Counts, x: u8, y: u8) -> Counts {
    let cx = class_of(x);
    let cy = class_of(y);
    if (cx is Gap && cy is Nucleotide) || (cx is Nucleotide && cy is Gap) {
        c.with_gap()
    } else if cx is Nucleotide && cy is Nucleotide {
        if x == y {
            c.with_match()
        } else if (cx == SymbolType::Nucleotide(NucleotideType::Purine) && cy == SymbolType::Nucleotide(
            NucleotideType::Purine,
        )) || (cx == SymbolType::Nucleotide(NucleotideType::Pyrimidine) && cy
            == SymbolType::Nucleotide(NucleotideType::Pyrimidine)) {
            c.with_transition()
        } else {
            c.with_transversion()
        }
    } else {
        c
    }
}

/// The counters after the first `n` pairs `(x[k], y[k])`.
pub open spec fn tally_prefix(x: Seq<u8>, y: Seq<u8>, n: nat) -> Counts
    decreases n,
{
    if n == 0 {
        Counts::zero()
    } else {
        step(tally_prefix(x, y, (n - 1) as nat), x[n - 1], y[n - 1])
    }
}

/// The counters after every pair of the two sequences, position by position,
/// up to the end of the shorter one.
pub open spec fn tally(x: Seq<u8>, y: Seq<u8>) -> Counts {
    tally_prefix(x, y, if x.len() <= y.len() { x.len() } else { y.len() })
}

/// Counting keeps the counters well formed and adds at most one position.
pub proof fn lemma_tally_prefix(x: Seq<u8>, y: Seq<u8>, n: nat)
    ensures
        tally_prefix(x, y, n).wf(),
        tally_prefix(x, y, n).total <= n,
    decreases n,
{
    if n > 0 {
        lemma_tally_prefix(x, y, (n - 1) as nat);
    }
}

/// The counters after `n` pairs depend on the first `n` pairs alone.
proof fn lemma_tally_prefix_agree(x1: Seq<u8>, y1: Seq<u8>, x2: Seq<u8>, y2: Seq<u8>, n: nat)
    requires
        n <= x1.len(),
        n <= y1.len(),
        n <= x2.len(),
        n <= y2.len(),
        forall|k: int| 0 <= k < n ==> x1[k] == x2[k] && y1[k] == y2[k],
    ensures
        tally_prefix(x1, y1, n) == tally_prefix(x2, y2, n),
    decreases n,
{
    if n > 0 {
        lemma_tally_prefix_agree(x1, y1, x2, y2, (n - 1) as nat);
    }
}

/// A quotient of two counts; a zero denominator stands for an undefined
/// value (zero over zero where the numerator is zero too).
#[derive(Clone, Copy, Debug, PartialEq, Eq, Structural)]
pub struct Ratio {
    pub numerator: usize,
    pub denominator: usize,
}

/// State for the distance calculation.
pub struct AlignmentStats {
    total_length: usize,
    common_length: usize,
    total_gap_length: usize,
    transitions: usize,
    transversions: usize,
}

impl View for AlignmentStats {
    type V = Counts;

    closed spec fn view(&self) -> Counts {
        Counts {
            total: self.total_length as nat,
            common: self.common_length as nat,
            gaps: self.total_gap_length as nat,
            transitions: self.transitions as nat,
            transversions: self.transversions as nat,
        }
    }
}

impl AlignmentStats {
    /// Zeroed state.
    pub fn new() -> (r: AlignmentStats)
        ensures
            r@ == Counts::zero(),
    {
        AlignmentStats {
            total_length: 0,
            common_length: 0,
            total_gap_length: 0,
            transitions: 0,
            transversions: 0,
        }
    }

    /// Number of positions counted, gaps included.
    pub fn total_length(&self) -> (r: usize)
        ensures
            r == self@.total,
    {
        self.total_length
    }

    /// Number of positions where both symbols are nucleotides.
    pub fn common_length(&self) -> (r: usize)
        ensures
            r == self@.common,
    {
        self.common_length
    }

    /// Number of positions where one symbol is a gap.
    pub fn total_gap_length(&self) -> (r: usize)
        ensures
            r == self@.gaps,
    {
        self.total_gap_length
    }

    /// Number of substitutions within a chemical class.
    pub fn transitions(&self) -> (r: usize)
        ensures
            r == self@.transitions,
    {
        self.transitions
    }

    /// Number of substitutions across chemical classes.
    pub fn transversions(&self) -> (r: usize)
        ensures
            r == self@.transversions,
    {
        self.transversions
    }

    /// Number of substitutions counted so far.
    pub fn substitutions(&self) -> (r: usize)
        requires
            self@.wf(),
        ensures
            r == self@.substitutions(),
    {
        self.transversions + self.transitions
    }

    /// Uncorrected p-distance: substitutions over common positions.
    pub fn pdistance(&self) -> (r: Ratio)
        requires
            self@.wf(),
        ensures
            r.numerator == self@.substitutions(),
            r.denominator == self@.common,
            self@.common == 0 ==> r.numerator == 0 && r.denominator == 0,
    {
        Ratio { numerator: self.substitutions(), denominator: self.common_length }
    }

    /// p-distance with gaps: substitutions and gaps over all positions.
    pub fn pdistance_counting_gaps(&self) -> (r: Ratio)
        requires
            self@.wf(),
        ensures
            r.numerator == self@.substitutions() + self@.gaps,
            r.denominator == self@.total,
    {
        Ratio {
            numerator: self.substitutions() + self.total_gap_length,
            denominator: self.total_length,
        }
    }

    /// The Jukes-Cantor correction is undefined, and the distance infinite,
    /// exactly when more than three quarters of the common positions are
    /// substitutions.
    pub fn jukes_cantor_saturated(&self) -> (r: bool)
        requires
            self@.wf(),
        ensures
            r == (4 * self@.substitutions() > 3 * self@.common),
    {
        (self.substitutions() as u128) * 4 > (self.common_length as u128) * 3
    }

    /// Kimura's two-parameter distance is infinite exactly when its logarithm
    /// has no finite value: with `p` transitions and `q` transversions per
    /// common position, when `1 - 2p - q <= 0` or `1 - 2q <= 0` (which takes
    /// in the case of no common position).
    pub fn kimura2p_saturated(&self) -> (r: bool)
        ensures
            r == (self@.common <= 2 * self@.transitions + self@.transversions || self@.common <= 2
                * self@.transversions),
    {
        let common = self.common_length as u128;
        let transitions = self.transitions as u128;
        let transversions = self.transversions as u128;
        common <= 2 * transitions + transversions || common <= 2 * transversions
    }

    fn count_gap(&mut self)
        requires
            old(self)@.wf(),
            old(self)@.total < usize::MAX,
        ensures
            final(self)@ == old(self)@.with_gap(),
    {
        self.total_length += 1;
        self.total_gap_length += 1;
    }

    fn count_match(&mut self)
        requires
            old(self)@.wf(),
            old(self)@.total < usize::MAX,
        ensures
            final(self)@ == old(self)@.with_match(),
    {
        self.total_length += 1;
        self.common_length += 1;
    }

    fn count_transition(&mut self)
        requires
            old(self)@.wf(),
            old(self)@.total < usize::MAX,
        ensures
            final(self)@ == old(self)@.with_transition(),
    {
        self.total_length += 1;
        self.common_length += 1;
        self.transitions += 1;
    }

    fn count_transversion(&mut self)
        requires
            old(self)@.wf(),
            old(self)@.total < usize::MAX,
        ensures
            final(self)@ == old(self)@.with_transversion(),
    {
        self.total_length += 1;
        self.common_length += 1;
        self.transversions += 1;
    }

    /// Count the aligned pair `(x, y)`.
    pub fn update(&mut self, pair: (u8, u8))
        requires
            old(self)@.wf(),
            old(self)@.total < usize::MAX,
        ensures
            final(self)@ == step(old(self)@, pair.0, pair.1),
            final(self)@.wf(),
    {
        let (x, y) = pair;
        match (classify(x), classify(y)) {
            (SymbolType::Gap, SymbolType::Nucleotide(_)) => self.count_gap(),
            (SymbolType::Nucleotide(_), SymbolType::Gap) => self.count_gap(),
            (SymbolType::Nucleotide(_), SymbolType::Nucleotide(_)) if x == y => self.count_match(),
            (SymbolType::Nucleotide(NucleotideType::Purine), SymbolType::Nucleotide(
                NucleotideType::Purine,
            ))
            | (SymbolType::Nucleotide(NucleotideType::Pyrimidine), SymbolType::Nucleotide(
                NucleotideType::Pyrimidine,
            )) => self.count_transition(),
            (SymbolType::Nucleotide(_), SymbolType::Nucleotide(_)) => self.count_transversion(),
            _ => {},
        }
    }
}

/// A symbol that carries sequence content: neither a gap nor missing data.
pub open spec fn is_base(c: u8) -> bool {
    !(c == 45 || c == 110 || c == 78 || c == 63)
}

/// Position `k` holds the first base of `b`.
pub open spec fn is_first_base(b: Seq<u8>, k: int) -> bool {
    &&& 0 <= k < b.len()
    &&& is_base(b[k])
    &&& forall|m: int| 0 <= m < k ==> !is_base(#[trigger] b[m])
}

/// Position `k` holds the last base of `b`.
pub open spec fn is_last_base(b: Seq<u8>, k: int) -> bool {
    &&& 0 <= k < b.len()
    &&& is_base(b[k])
    &&& forall|m: int| k < m < b.len() ==> !is_base(#[trigger] b[m])
}

pub open spec fn has_base(b: Seq<u8>) -> bool {
    exists|k: int| 0 <= k < b.len() && is_base(#[trigger] b[k])
}

pub open spec fn first_base(b: Seq<u8>) -> int {
    choose|k: int| is_first_base(b, k)
}

pub open spec fn last_base(b: Seq<u8>) -> int {
    choose|k: int| is_last_base(b, k)
}

/// The inclusive bounds of the part of two aligned sequences that lies
/// between the first and the last base of both; none where either has no
/// base. The lower bound may exceed the upper one.
pub open spec fn common_span(t: Seq<u8>, q: Seq<u8>) -> Option<(int, int)> {
    if has_base(t) && has_base(q) {
        let start = if first_base(t) >= first_base(q) {
            first_base(t)
        } else {
            first_base(q)
        };
        let end = if last_base(t) <= last_base(q) {
            last_base(t)
        } else {
            last_base(q)
        };
        Some((start, end))
    } else {
        None
    }
}

/// The two sequences share a non-empty span between their bases.
pub open spec fn overlaps(t: Seq<u8>, q: Seq<u8>) -> bool {
    common_span(t, q) is Some && common_span(t, q).unwrap().0 <= common_span(t, q).unwrap().1
}

/// The counters over the common span of two aligned sequences.
pub open spec fn common_tally(t: Seq<u8>, q: Seq<u8>) -> Counts {
    let (start, end) = common_span(t, q).unwrap();
    tally(t.subrange(start, end + 1), q.subrange(start, end + 1))
}

proof fn lemma_first_base_unique(b: Seq<u8>, k: int)
    requires
        is_first_base(b, k),
    ensures
        first_base(b) == k,
{
    let c = first_base(b);
    assert(is_first_base(b, c));
    if c < k {
        assert(!is_base(b[c]));
    } else if k < c {
        assert(!is_base(b[k]));
    }
}

proof fn lemma_last_base_unique(b: Seq<u8>, k: int)
    requires
        is_last_base(b, k),
    ensures
        last_base(b) == k,
{
    let c = last_base(b);
    assert(is_last_base(b, c));
    if c < k {
        assert(!is_base(b[k]));
    } else if k < c {
        assert(!is_base(b[c]));
    }
}

/// Returns true if the symbol is part of a meaningful part of a sequence.
fn is_nucleotide(c: u8) -> (r: bool)
    ensures
        r == is_base(c),
{
    // '-', 'n', 'N', '?'
    !(c == 45 || c == 110 || c == 78 || c == 63)
}

fn find_first_base(b: &[u8]) -> (r: Option<usize>)
    ensures
        r is None <==> !has_base(b@),
        r is Some ==> is_first_base(b@, r.unwrap() as int),
{
    let mut k: usize = 0;
    while k < b.len()
        invariant
            k <= b@.len(),
            forall|m: int| 0 <= m < k ==> !is_base(#[trigger] b@[m]),
        decreases b@.len() - k,
    {
        if is_nucleotide(b[k]) {
            return Some(k);
        }
        k = k + 1;
    }
    None
}

fn find_last_base(b: &[u8]) -> (r: Option<usize>)
    ensures
        r is None <==> !has_base(b@),
        r is Some ==> is_last_base(b@, r.unwrap() as int),
{
    let mut k: usize = b.len();
    while k > 0
        invariant
            k <= b@.len(),
            forall|m: int| k <= m < b@.len() ==> !is_base(#[trigger] b@[m]),
        decreases k,
    {
        if is_nucleotide(b[k - 1]) {
            return Some(k - 1);
        }
        k = k - 1;
    }
    None
}

/// Returns the inclusive boundaries of the common non-gap part of given
/// sequences.
fn common_content(target: &[u8], query: &[u8]) -> (r: Option<(usize, usize)>)
    ensures
        r is Some == common_span(target@, query@) is Some,
        r is Some ==> r.unwrap().0 == common_span(target@, query@).unwrap().0 && r.unwrap().1
            == common_span(target@, query@).unwrap().1,
        r is Some ==> r.unwrap().1 < target@.len() && r.unwrap().1 < query@.len(),
{
    let target_start = match find_first_base(target) {
        Some(k) => k,
        None => return None,
    };
    let query_start = match find_first_base(query) {
        Some(k) => k,
        None => return None,
    };
    let target_end = match find_last_base(target) {
        Some(k) => k,
        None => return None,
    };
    let query_end = match find_last_base(query) {
        Some(k) => k,
        None => return None,
    };
    proof {
        lemma_first_base_unique(target@, target_start as int);
        lemma_first_base_unique(query@, query_start as int);
        lemma_last_base_unique(target@, target_end as int);
        lemma_last_base_unique(query@, query_end as int);
    }
    let start = if target_start >= query_start {
        target_start
    } else {
        query_start
    };
    let end = if target_end <= query_end {
        target_end
    } else {
        query_end
    };
    Some((start, end))
}

/// Counts the pairs `(x[k], y[k])` for `k` below `n`.
fn tally_pairs(x: &[u8], y: &[u8], from: usize, n: usize) -> (r: AlignmentStats)
    requires
        from + n <= x@.len(),
        from + n <= y@.len(),
    ensures
        r@ == tally_prefix(x@.subrange(from as int, from + n), y@.subrange(from as int, from + n), n as nat),
        r@.wf(),
{
    let ghost xs = x@.subrange(from as int, from + n);
    let ghost ys = y@.subrange(from as int, from + n);
    let xl = x.len();
    let mut stats = AlignmentStats::new();
    let mut k: usize = 0;
    while k < n
        invariant
            xl == x@.len(),
            from + n <= x@.len(),
            from + n <= y@.len(),
            xs == x@.subrange(from as int, from + n),
            ys == y@.subrange(from as int, from + n),
            k <= n,
            stats@ == tally_prefix(xs, ys, k as nat),
        decreases n - k,
    {
        proof {
            lemma_tally_prefix(xs, ys, k as nat);
        }
        stats.update((x[from + k], y[from + k]));
        k = k + 1;
    }
    proof {
        lemma_tally_prefix(xs, ys, n as nat);
    }
    stats
}

/// The counters over the global alignment of `t` against `q`.
pub open spec fn alignment_tally(s: Scoring, t: Seq<u8>, q: Seq<u8>) -> Counts {
    tally(alignment(s, t, q).0, alignment(s, t, q).1)
}

/// Counts the pairs of the alignment of `target` against `query`.
pub fn seq_stats(aligner: &Aligner, target: &str, query: &str) -> (r: AlignmentStats)
    requires
        (target.spec_bytes().len() + 1) * (query.spec_bytes().len() + 1) <= usize::MAX,
    ensures
        r@ == alignment_tally(aligner@, target.spec_bytes(), query.spec_bytes()),
        r@.wf(),
{
    let (target_align, query_align) = aligner.align_bytes(target.as_bytes(), query.as_bytes());
    let n = if target_align.len() <= query_align.len() {
        target_align.len()
    } else {
        query_align.len()
    };
    let r = tally_pairs(target_align.as_slice(), query_align.as_slice(), 0, n);
    proof {
        lemma_tally_prefix_agree(
            target_align@.subrange(0, n as int),
            query_align@.subrange(0, n as int),
            target_align@,
            query_align@,
            n as nat,
        );
    }
    r
}

/// Counts the pairs of two aligned sequences over their common span: from
/// the later of their first bases to the earlier of their last bases. None
/// where that span is empty.
pub fn seq_stats_aligned(target: &str, query: &str) -> (r: Option<AlignmentStats>)
    ensures
        r is Some == overlaps(target.spec_bytes(), query.spec_bytes()),
        r is Some ==> r.unwrap()@ == common_tally(target.spec_bytes(), query.spec_bytes()),
        r is Some ==> r.unwrap()@.wf(),
{
    let target = target.as_bytes();
    let query = query.as_bytes();
    let (start, end) = match common_content(target, query) {
        None => return None,
        Some(x) => x,
    };
    if start > end {
        return None;
    }
    let target_len = target.len();
    assert(end < target_len);
    let n = end - start + 1;
    let r = tally_pairs(target, query, start, n);
    proof {
        let xs = target@.subrange(start as int, end + 1);
        let ys = query@.subrange(start as int, end + 1);
        assert(xs =~= target@.subrange(start as int, start + n));
        assert(ys =~= query@.subrange(start as int, start + n));
    }
    Some(r)
}

proof fn lemma_row_before(m: int, i: int, ii: int, jj: int)
    requires
        0 <= ii < i,
        0 <= jj < m,
    ensures
        0 <= ii * m + jj < i * m,
{
    assert(0 <= ii * m) by (nonlinear_arith)
        requires
            0 <= ii,
            0 <= m,
    ;
    assert(ii * m + m <= i * m) by (nonlinear_arith)
        requires
            ii + 1 <= i,
            0 <= m,
    ;
}

/// The counters for every target against every query, the target varying
/// slower: entry `i * queries.len() + j` belongs to `targets[i]` against
/// `queries[j]`.
pub fn make_stats_table(aligner: &Aligner, targets: &[&str], queries: &[&str]) -> (r: Vec<
    AlignmentStats,
>)
    requires
        forall|i: int, j: int|
            0 <= i < targets@.len() && 0 <= j < queries@.len() ==> (targets@[i].spec_bytes().len()
                + 1) * (queries@[j].spec_bytes().len() + 1) <= usize::MAX,
    ensures
        r@.len() == targets@.len() * queries@.len(),
        forall|i: int, j: int|
            0 <= i < targets@.len() && 0 <= j < queries@.len() ==> r@[i * queries@.len() + j]@
                == #[trigger] alignment_tally(
                aligner@,
                targets@[i].spec_bytes(),
                queries@[j].spec_bytes(),
            ),
{
    let n = targets.len();
    let m = queries.len();
    let ghost s = aligner@;
    let mut r: Vec<AlignmentStats> = Vec::new();
    let mut i: usize = 0;
    while i < n
        invariant
            s == aligner@,
            n == targets@.len(),
            m == queries@.len(),
            i <= n,
            r@.len() == i * m,
            forall|ii: int, jj: int|
                0 <= ii < n && 0 <= jj < m ==> (targets@[ii].spec_bytes().len() + 1) * (
                queries@[jj].spec_bytes().len() + 1) <= usize::MAX,
            forall|ii: int, jj: int|
                0 <= ii < i && 0 <= jj < m ==> r@[ii * m + jj]@ == #[trigger] alignment_tally(
                    s,
                    targets@[ii].spec_bytes(),
                    queries@[jj].spec_bytes(),
                ),
        decreases n - i,
    {
        let mut j: usize = 0;
        while j < m
            invariant
                s == aligner@,
                n == targets@.len(),
                m == queries@.len(),
                i < n,
                j <= m,
                r@.len() == i * m + j,
                forall|ii: int, jj: int|
                    0 <= ii < n && 0 <= jj < m ==> (targets@[ii].spec_bytes().len() + 1) * (
                    queries@[jj].spec_bytes().len() + 1) <= usize::MAX,
                forall|ii: int, jj: int|
                    0 <= ii < i && 0 <= jj < m ==> r@[ii * m + jj]@ == #[trigger] alignment_tally(
                        s,
                        targets@[ii].spec_bytes(),
                        queries@[jj].spec_bytes(),
                    ),
                forall|jj: int|
                    0 <= jj < j ==> r@[i * m + jj]@ == #[trigger] alignment_tally(
                        s,
                        targets@[i as int].spec_bytes(),
                        queries@[jj].spec_bytes(),
                    ),
            decreases m - j,
        {
            let ghost prev = r@;
            assert((targets@[i as int].spec_bytes().len() + 1) * (
            queries@[j as int].spec_bytes().len() + 1) <= usize::MAX);
            let st = seq_stats(aligner, targets[i], queries[j]);
            r.push(st);
            proof {
                assert forall|ii: int, jj: int| 0 <= ii < i && 0 <= jj < m implies r@[ii * m
                    + jj]@ == #[trigger] alignment_tally(
                    s,
                    targets@[ii].spec_bytes(),
                    queries@[jj].spec_bytes(),
                ) by {
                    lemma_row_before(m as int, i as int, ii, jj);
                    assert(r@[ii * m + jj] == prev[ii * m + jj]);
                }
                assert forall|jj: int| 0 <= jj < j + 1 implies r@[i * m + jj]@
                    == #[trigger] alignment_tally(
                    s,
                    targets@[i as int].spec_bytes(),
                    queries@[jj].spec_bytes(),
                ) by {
                    if jj < j {
                        assert(r@[i * m + jj] == prev[i * m + jj]);
                    }
                }
            }
            j = j + 1;
        }
        proof {
            assert(i * m + m == (i + 1) * m) by (nonlinear_arith);
            assert forall|ii: int, jj: int| 0 <= ii < i + 1 && 0 <= jj < m implies r@[ii * m
                + jj]@ == #[trigger] alignment_tally(
                s,
                targets@[ii].spec_bytes(),
                queries@[jj].spec_bytes(),
            ) by {
                if ii == i {
                    assert(alignment_tally(
                        s,
                        targets@[i as int].spec_bytes(),
                        queries@[jj].spec_bytes(),
                    ) == r@[i * m + jj]@);
                }
            }
        }
        i = i + 1;
    }
    r
}

/// The counters over the common span of two aligned sequences; none where
/// they do not overlap.
pub open spec fn aligned_tally(t: Seq<u8>, q: Seq<u8>) -> Option<Counts> {
    if overlaps(t, q) {
        Some(common_tally(t, q))
    } else {
        None
    }
}

/// The counters that an optional accumulator holds.
pub open spec fn counts_of(o: Option<AlignmentStats>) -> Option<Counts> {
    match o {
        Some(st) => Some(st@),
        None => None,
    }
}

/// The counters for every aligned target against every aligned query, the
/// target varying slower: entry `i * queries.len() + j` belongs to
/// `targets[i]` against `queries[j]`, and is none where they share no span.
pub fn make_stats_table_aligned(targets: &[&str], queries: &[&str]) -> (r: Vec<
    Option<AlignmentStats>,
>)
    ensures
        r@.len() == targets@.len() * queries@.len(),
        forall|i: int, j: int|
            0 <= i < targets@.len() && 0 <= j < queries@.len() ==> counts_of(
                r@[i * queries@.len() + j],
            ) == #[trigger] aligned_tally(targets@[i].spec_bytes(), queries@[j].spec_bytes()),
{
    let n = targets.len();
    let m = queries.len();
    let mut r: Vec<Option<AlignmentStats>> = Vec::new();
    let mut i: usize = 0;
    while i < n
        invariant
            n == targets@.len(),
            m == queries@.len(),
            i <= n,
            r@.len() == i * m,
            forall|ii: int, jj: int|
                0 <= ii < i && 0 <= jj < m ==> counts_of(r@[ii * m + jj]) == #[trigger] aligned_tally(
                    targets@[ii].spec_bytes(),
                    queries@[jj].spec_bytes(),
                ),
        decreases n - i,
    {
        let mut j: usize = 0;
        while j < m
            invariant
                n == targets@.len(),
                m == queries@.len(),
                i < n,
                j <= m,
                r@.len() == i * m + j,
                forall|ii: int, jj: int|
                    0 <= ii < i && 0 <= jj < m ==> counts_of(r@[ii * m + jj])
                        == #[trigger] aligned_tally(
                        targets@[ii].spec_bytes(),
                        queries@[jj].spec_bytes(),
                    ),
                forall|jj: int|
                    0 <= jj < j ==> counts_of(r@[i * m + jj]) == #[trigger] aligned_tally(
                        targets@[i as int].spec_bytes(),
                        queries@[jj].spec_bytes(),
                    ),
            decreases m - j,
        {
            let ghost prev = r@;
            let entry = seq_stats_aligned(targets[i], queries[j]);
            r.push(entry);
            proof {
                assert forall|ii: int, jj: int| 0 <= ii < i && 0 <= jj < m implies counts_of(
                    r@[ii * m + jj],
                ) == #[trigger] aligned_tally(
                    targets@[ii].spec_bytes(),
                    queries@[jj].spec_bytes(),
                ) by {
                    lemma_row_before(m as int, i as int, ii, jj);
                    assert(r@[ii * m + jj] == prev[ii * m + jj]);
                }
                assert forall|jj: int| 0 <= jj < j + 1 implies counts_of(r@[i * m + jj])
                    == #[trigger] aligned_tally(
                    targets@[i as int].spec_bytes(),
                    queries@[jj].spec_bytes(),
                ) by {
                    if jj < j {
                        assert(r@[i * m + jj] == prev[i * m + jj]);
                    }
                }
            }
            j = j + 1;
        }
        proof {
            assert(i * m + m == (i + 1) * m) by (nonlinear_arith);
            assert forall|ii: int, jj: int| 0 <= ii < i + 1 && 0 <= jj < m implies counts_of(
                r@[ii * m + jj],
            ) == #[trigger] aligned_tally(targets@[ii].spec_bytes(), queries@[jj].spec_bytes()) by {
                if ii == i {
                    assert(aligned_tally(targets@[i as int].spec_bytes(), queries@[jj].spec_bytes())
                        == counts_of(r@[i * m + jj]));
                }
            }
        }
        i = i + 1;
    }
    r
}

} // verus!
