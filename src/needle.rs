//! Global alignment with the Needleman-Wunsch algorithm, where gaps at the
//! ends of the sequences are scored apart from gaps inside them.
use vstd::prelude::*;
use vstd::string::*;
use vstd::utf8::*;

use crate::grid::{Dir, Grid, Score};

verus! {

/// The symbol written where a sequence has no counterpart.
pub const GAP: u8 = 45u8;

/// The six scoring parameters of an aligner, as mathematical integers.
pub struct Scoring {
    pub match_score: int,
    pub mismatch_score: int,
    pub gap_open: int,
    pub gap_extend: int,
    pub end_gap_open: int,
    pub end_gap_extend: int,
}

impl Scoring {
    /// Every parameter fits in an `i16`.
    pub open spec fn bounded(self) -> bool {
        &&& i16::MIN <= self.match_score <= i16::MAX
        &&& i16::MIN <= self.mismatch_score <= i16::MAX
        &&& i16::MIN <= self.gap_open <= i16::MAX
        &&& i16::MIN <= self.gap_extend <= i16::MAX
        &&& i16::MIN <= self.end_gap_open <= i16::MAX
        &&& i16::MIN <= self.end_gap_extend <= i16::MAX
    }
}

/// The cost of one gap step: extending a gap or opening one, at an end of
/// the alignment or inside it.
pub open spec fn gap_cost(s: Scoring, extending: bool, terminal: bool) -> int {
    if extending {
        if terminal {
            s.end_gap_extend
        } else {
            s.gap_extend
        }
    } else {
        if terminal {
            s.end_gap_open
        } else {
            s.gap_open
        }
    }
}

/// The score of putting `x` against `y`.
pub open spec fn pair_score(s: Scoring, x: u8, y: u8) -> int {
    if x == y {
        s.match_score
    } else {
        s.mismatch_score
    }
}

/// The best of three candidates: the diagonal wins every tie, and up wins a
/// tie with left.
pub open spec fn pick(left: int, up: int, diag: int) -> (Dir, int) {
    if left <= diag && up <= diag {
        (Dir::Diagonal, diag)
    } else if left <= up {
        (Dir::Up, up)
    } else {
        (Dir::Left, left)
    }
}

/// The direction and score of cell `(i, j)` of the table for `t` (columns)
/// against `q` (rows).
pub open spec fn nw_cell(s: Scoring, t: Seq<u8>, q: Seq<u8>, i: int, j: int) -> (Dir, int)
    decreases i + j,
{
    if i <= 0 && j <= 0 {
        (Dir::Diagonal, 0)
    } else if j <= 0 {
        (Dir::Left, s.end_gap_open + (i - 1) * s.end_gap_extend)
    } else if i <= 0 {
        (Dir::Up, s.end_gap_open + (j - 1) * s.end_gap_extend)
    } else {
        let l = nw_cell(s, t, q, i - 1, j);
        let u = nw_cell(s, t, q, i, j - 1);
        let d = nw_cell(s, t, q, i - 1, j - 1);
        pick(
            l.1 + gap_cost(s, l.0 == Dir::Left, j == q.len()),
            u.1 + gap_cost(s, u.0 == Dir::Up, i == t.len()),
            d.1 + pair_score(s, t[i - 1], q[j - 1]),
        )
    }
}

/// The candidate of cell `(i, j)` that comes from its left neighbour.
pub open spec fn left_candidate(s: Scoring, t: Seq<u8>, q: Seq<u8>, i: int, j: int) -> int {
    let l = nw_cell(s, t, q, i - 1, j);
    l.1 + gap_cost(s, l.0 == Dir::Left, j == q.len())
}

/// The candidate of cell `(i, j)` that comes from the neighbour above it.
pub open spec fn up_candidate(s: Scoring, t: Seq<u8>, q: Seq<u8>, i: int, j: int) -> int {
    let u = nw_cell(s, t, q, i, j - 1);
    u.1 + gap_cost(s, u.0 == Dir::Up, i == t.len())
}

/// The candidate of cell `(i, j)` that comes diagonally.
pub open spec fn diag_candidate(s: Scoring, t: Seq<u8>, q: Seq<u8>, i: int, j: int) -> int {
    nw_cell(s, t, q, i - 1, j - 1).1 + pair_score(s, t[i - 1], q[j - 1])
}

/// The table holds the recurrence's value in cell `(i, j)`.
pub open spec fn holds_cell(g: Grid, s: Scoring, t: Seq<u8>, q: Seq<u8>, i: int, j: int) -> bool {
    g.cell(i, j).dir == nw_cell(s, t, q, i, j).0 && g.cell(i, j).score == nw_cell(s, t, q, i, j).1
}

/// A bound on the magnitude of every score, which keeps the table's
/// arithmetic inside `i128`.
proof fn lemma_score_bound(s: Scoring, t: Seq<u8>, q: Seq<u8>, i: int, j: int)
    requires
        s.bounded(),
        0 <= i,
        0 <= j,
    ensures
        -(i + j + 1) * 32768 <= nw_cell(s, t, q, i, j).1 <= (i + j + 1) * 32768,
    decreases i + j,
{
    if i <= 0 && j <= 0 {
    } else if j <= 0 {
        let e = s.end_gap_extend;
        assert(-(i - 1) * 32768 <= (i - 1) * e <= (i - 1) * 32768) by (nonlinear_arith)
            requires
                1 <= i,
                -32768 <= e <= 32767,
        ;
    } else if i <= 0 {
        let e = s.end_gap_extend;
        assert(-(j - 1) * 32768 <= (j - 1) * e <= (j - 1) * 32768) by (nonlinear_arith)
            requires
                1 <= j,
                -32768 <= e <= 32767,
        ;
    } else {
        lemma_score_bound(s, t, q, i - 1, j);
        lemma_score_bound(s, t, q, i, j - 1);
        lemma_score_bound(s, t, q, i - 1, j - 1);
    }
}

/// The aligned rows for the prefixes `t[..i]` and `q[..j]`, read off the
/// table by walking back from cell `(i, j)` to the origin.
pub open spec fn trace(s: Scoring, t: Seq<u8>, q: Seq<u8>, i: nat, j: nat) -> (Seq<u8>, Seq<u8>)
    decreases i + j,
{
    if i == 0 && j == 0 {
        (Seq::empty(), Seq::empty())
    } else {
        let d = nw_cell(s, t, q, i as int, j as int).0;
        if d == Dir::Diagonal && i > 0 && j > 0 {
            let p = trace(s, t, q, (i - 1) as nat, (j - 1) as nat);
            (p.0.push(t[i - 1]), p.1.push(q[j - 1]))
        } else if d == Dir::Up && j > 0 {
            let p = trace(s, t, q, i, (j - 1) as nat);
            (p.0.push(GAP), p.1.push(q[j - 1]))
        } else if d == Dir::Left && i > 0 {
            let p = trace(s, t, q, (i - 1) as nat, j);
            (p.0.push(t[i - 1]), p.1.push(GAP))
        } else {
            (Seq::empty(), Seq::empty())
        }
    }
}

/// The global alignment of `t` against `q`: the target's row and the query's
/// row, left to right.
pub open spec fn alignment(s: Scoring, t: Seq<u8>, q: Seq<u8>) -> (Seq<u8>, Seq<u8>) {
    trace(s, t, q, t.len(), q.len())
}

/// The row with every `GAP` removed.
pub open spec fn without_gaps(x: Seq<u8>) -> Seq<u8>
    decreases x.len(),
{
    if x.len() == 0 {
        x
    } else if x.last() == GAP {
        without_gaps(x.drop_last())
    } else {
        without_gaps(x.drop_last()).push(x.last())
    }
}

proof fn lemma_without_gaps_push(x: Seq<u8>, c: u8)
    ensures
        without_gaps(x.push(c)) == if c == GAP {
            without_gaps(x)
        } else {
            without_gaps(x).push(c)
        },
{
    assert(x.push(c).drop_last() =~= x);
}

proof fn lemma_trace_keeps(s: Scoring, t: Seq<u8>, q: Seq<u8>, i: nat, j: nat)
    requires
        i <= t.len(),
        j <= q.len(),
        !t.contains(GAP),
        !q.contains(GAP),
    ensures
        trace(s, t, q, i, j).0.len() == trace(s, t, q, i, j).1.len(),
        trace(s, t, q, i, j).0.len() >= i,
        trace(s, t, q, i, j).0.len() >= j,
        without_gaps(trace(s, t, q, i, j).0) == t.subrange(0, i as int),
        without_gaps(trace(s, t, q, i, j).1) == q.subrange(0, j as int),
    decreases i + j,
{
    if i == 0 && j == 0 {
        assert(t.subrange(0, 0) =~= Seq::<u8>::empty());
        assert(q.subrange(0, 0) =~= Seq::<u8>::empty());
    } else {
        lemma_dir_shape(s, t, q, i as int, j as int);
        let d = nw_cell(s, t, q, i as int, j as int).0;
        if d == Dir::Diagonal {
            let p = trace(s, t, q, (i - 1) as nat, (j - 1) as nat);
            lemma_trace_keeps(s, t, q, (i - 1) as nat, (j - 1) as nat);
            assert(t[i - 1] != GAP);
            assert(q[j - 1] != GAP);
            lemma_without_gaps_push(p.0, t[i - 1]);
            lemma_without_gaps_push(p.1, q[j - 1]);
            assert(t.subrange(0, i - 1).push(t[i - 1]) =~= t.subrange(0, i as int));
            assert(q.subrange(0, j - 1).push(q[j - 1]) =~= q.subrange(0, j as int));
        } else if d == Dir::Up {
            let p = trace(s, t, q, i, (j - 1) as nat);
            lemma_trace_keeps(s, t, q, i, (j - 1) as nat);
            assert(q[j - 1] != GAP);
            lemma_without_gaps_push(p.0, GAP);
            lemma_without_gaps_push(p.1, q[j - 1]);
            assert(q.subrange(0, j - 1).push(q[j - 1]) =~= q.subrange(0, j as int));
        } else {
            let p = trace(s, t, q, (i - 1) as nat, j);
            lemma_trace_keeps(s, t, q, (i - 1) as nat, j);
            assert(t[i - 1] != GAP);
            lemma_without_gaps_push(p.0, t[i - 1]);
            lemma_without_gaps_push(p.1, GAP);
            assert(t.subrange(0, i - 1).push(t[i - 1]) =~= t.subrange(0, i as int));
        }
    }
}

/// Aligning keeps both sequences: for non-empty sequences without gap
/// symbols of their own, the two rows have one length, at least that of the
/// longer sequence, and dropping the gaps from a row gives back its sequence.
pub proof fn lemma_alignment_keeps_sequences(s: Scoring, t: Seq<u8>, q: Seq<u8>)
    requires
        t.len() > 0,
        q.len() > 0,
        !t.contains(GAP),
        !q.contains(GAP),
    ensures
        alignment(s, t, q).0.len() == alignment(s, t, q).1.len(),
        alignment(s, t, q).0.len() >= t.len(),
        alignment(s, t, q).0.len() >= q.len(),
        without_gaps(alignment(s, t, q).0) == t,
        without_gaps(alignment(s, t, q).1) == q,
{
    lemma_trace_keeps(s, t, q, t.len(), q.len());
    assert(t.subrange(0, t.len() as int) =~= t);
    assert(q.subrange(0, q.len() as int) =~= q);
}

/// The table and the alignment are functions of the scoring and the two
/// sequences alone: equal inputs give equal cells and equal rows.
pub proof fn lemma_alignment_deterministic(
    s1: Scoring,
    t1: Seq<u8>,
    q1: Seq<u8>,
    s2: Scoring,
    t2: Seq<u8>,
    q2: Seq<u8>,
)
    requires
        s1 == s2,
        t1 == t2,
        q1 == q2,
    ensures
        forall|i: int, j: int| nw_cell(s1, t1, q1, i, j) == nw_cell(s2, t2, q2, i, j),
        alignment(s1, t1, q1) == alignment(s2, t2, q2),
{
}

/// Cell `(i, j)` has a tie between its left and up candidates that beats
/// the diagonal, which the tie-break settles for up.
pub open spec fn is_tie(s: Scoring, t: Seq<u8>, q: Seq<u8>, i: int, j: int) -> bool {
    let l = left_candidate(s, t, q, i, j);
    let u = up_candidate(s, t, q, i, j);
    let d = diag_candidate(s, t, q, i, j);
    !(l <= d && u <= d) && l == u
}

/// No inner cell of the table has such a tie.
pub open spec fn tie_free(s: Scoring, t: Seq<u8>, q: Seq<u8>) -> bool {
    forall|i: int, j: int| 1 <= i <= t.len() && 1 <= j <= q.len() ==> !#[trigger] is_tie(s, t, q, i, j)
}

/// The same cell seen with the roles of the sequences swapped: up and left
/// trade places.
pub open spec fn flipped(c: (Dir, int)) -> (Dir, int) {
    match c.0 {
        Dir::Up => (Dir::Left, c.1),
        Dir::Left => (Dir::Up, c.1),
        Dir::Diagonal => (Dir::Diagonal, c.1),
    }
}

proof fn lemma_cell_transpose(s: Scoring, t: Seq<u8>, q: Seq<u8>, i: int, j: int)
    requires
        tie_free(s, t, q),
        0 <= i <= t.len(),
        0 <= j <= q.len(),
    ensures
        nw_cell(s, q, t, j, i) == flipped(nw_cell(s, t, q, i, j)),
    decreases i + j,
{
    if i > 0 && j > 0 {
        lemma_cell_transpose(s, t, q, i - 1, j);
        lemma_cell_transpose(s, t, q, i, j - 1);
        lemma_cell_transpose(s, t, q, i - 1, j - 1);
        assert(!is_tie(s, t, q, i, j));
        assert(pair_score(s, q[j - 1], t[i - 1]) == pair_score(s, t[i - 1], q[j - 1]));
    }
}

proof fn lemma_trace_transpose(s: Scoring, t: Seq<u8>, q: Seq<u8>, i: nat, j: nat)
    requires
        tie_free(s, t, q),
        i <= t.len(),
        j <= q.len(),
    ensures
        trace(s, q, t, j, i) == (trace(s, t, q, i, j).1, trace(s, t, q, i, j).0),
    decreases i + j,
{
    if i > 0 || j > 0 {
        lemma_cell_transpose(s, t, q, i as int, j as int);
        lemma_dir_shape(s, t, q, i as int, j as int);
        let d = nw_cell(s, t, q, i as int, j as int).0;
        if d == Dir::Diagonal {
            lemma_trace_transpose(s, t, q, (i - 1) as nat, (j - 1) as nat);
        } else if d == Dir::Up {
            lemma_trace_transpose(s, t, q, i, (j - 1) as nat);
        } else {
            lemma_trace_transpose(s, t, q, (i - 1) as nat, j);
        }
    }
}

/// Swapping the roles of target and query transposes the table, with up and
/// left trading places, and swaps the two rows of the alignment; this holds
/// whenever no cell has a tie between left and up that beats the diagonal
/// (such a tie goes to up in both tables, which breaks the mirror image).
pub proof fn lemma_role_swap(s: Scoring, t: Seq<u8>, q: Seq<u8>)
    requires
        tie_free(s, t, q),
    ensures
        forall|i: int, j: int|
            0 <= i <= t.len() && 0 <= j <= q.len() ==> #[trigger] nw_cell(s, q, t, j, i) == flipped(
                nw_cell(s, t, q, i, j),
            ),
        alignment(s, q, t) == (alignment(s, t, q).1, alignment(s, t, q).0),
{
    assert forall|i: int, j: int| 0 <= i <= t.len() && 0 <= j <= q.len() implies #[trigger] nw_cell(
        s,
        q,
        t,
        j,
        i,
    ) == flipped(nw_cell(s, t, q, i, j)) by {
        lemma_cell_transpose(s, t, q, i, j);
    }
    lemma_trace_transpose(s, t, q, t.len(), q.len());
}

/// Every byte is below 128.
pub open spec fn ascii_bytes(b: Seq<u8>) -> bool {
    forall|k: int| 0 <= k < b.len() ==> #[trigger] b[k] < 128
}

/// The characters that the bytes stand for, one for one.
pub open spec fn as_text(b: Seq<u8>) -> Seq<char> {
    Seq::new(b.len(), |k: int| b[k] as char)
}

/// Only the origin points diagonally without a cell before it; the first row
/// points left and the first column up.
proof fn lemma_dir_shape(s: Scoring, t: Seq<u8>, q: Seq<u8>, i: int, j: int)
    requires
        0 <= i,
        0 <= j,
        i > 0 || j > 0,
    ensures
        nw_cell(s, t, q, i, j).0 == Dir::Diagonal ==> i > 0 && j > 0,
        nw_cell(s, t, q, i, j).0 == Dir::Up ==> j > 0,
        nw_cell(s, t, q, i, j).0 == Dir::Left ==> i > 0,
{
}

proof fn lemma_trace_ascii(s: Scoring, t: Seq<u8>, q: Seq<u8>, i: nat, j: nat)
    requires
        ascii_bytes(t),
        ascii_bytes(q),
        i <= t.len(),
        j <= q.len(),
    ensures
        ascii_bytes(trace(s, t, q, i, j).0),
        ascii_bytes(trace(s, t, q, i, j).1),
    decreases i + j,
{
    if i == 0 && j == 0 {
    } else {
        let d = nw_cell(s, t, q, i as int, j as int).0;
        if d == Dir::Diagonal && i > 0 && j > 0 {
            lemma_trace_ascii(s, t, q, (i - 1) as nat, (j - 1) as nat);
        } else if d == Dir::Up && j > 0 {
            lemma_trace_ascii(s, t, q, i, (j - 1) as nat);
        } else if d == Dir::Left && i > 0 {
            lemma_trace_ascii(s, t, q, (i - 1) as nat, j);
        }
        let p = trace(s, t, q, i, j);
        assert(ascii_bytes(p.0));
        assert(ascii_bytes(p.1));
    }
}

/// Bytes below 128 are valid UTF-8 and decode one character each.
proof fn lemma_ascii_text(b: Seq<u8>)
    requires
        ascii_bytes(b),
    ensures
        valid_utf8(b),
        decode_utf8(b) == as_text(b),
{
    let chars = as_text(b);
    assert(is_ascii_chars(chars));
    is_ascii_chars_encode_utf8(chars);
    assert(encode_utf8(chars) =~= b);
    encode_utf8_valid_utf8(chars);
    encode_utf8_decode_utf8(chars);
}

proof fn lemma_reverse_push(x: Seq<u8>, c: u8)
    ensures
        x.push(c).reverse() == seq![c] + x.reverse(),
{
    assert(x.push(c).reverse() =~= seq![c] + x.reverse());
}

/// Relies on `String::from_utf8`: it succeeds exactly when the bytes are
/// valid UTF-8, and the string then holds the characters they encode.
#[verifier::external_body]
fn string_from_utf8(bytes: Vec<u8>) -> (r: Option<String>)
    ensures
        r.is_some() == valid_utf8(bytes@),
        r.is_some() ==> r.unwrap()@ == decode_utf8(bytes@),
{
    String::from_utf8(bytes).ok()
}

/// A copy of `v` in reverse order.
fn reversed(v: &Vec<u8>) -> (r: Vec<u8>)
    ensures
        r@ == v@.reverse(),
{
    let n = v.len();
    let mut r: Vec<u8> = Vec::with_capacity(n);
    let mut k: usize = 0;
    while k < n
        invariant
            n == v@.len(),
            k <= n,
            r@ =~= Seq::new(k as nat, |m: int| v@[n - 1 - m]),
        decreases n - k,
    {
        r.push(v[n - 1 - k]);
        k = k + 1;
    }
    assert(r@ =~= v@.reverse());
    r
}

/// The aligned row of the target or of the query is not valid text.
#[derive(Clone, Copy, Debug, PartialEq, Eq, Structural)]
pub enum EncodingError {
    Target,
    Query,
}

/// Scoring parameters for global alignment.
pub struct Aligner {
    match_score: i16,
    mismatch_score: i16,
    gap_penalty: i16,
    gap_extend_penalty: i16,
    end_gap_penalty: i16,
    end_gap_extend_penalty: i16,
}

impl View for Aligner {
    type V = Scoring;

    closed spec fn view(&self) -> Scoring {
        Scoring {
            match_score: self.match_score as int,
            mismatch_score: self.mismatch_score as int,
            gap_open: self.gap_penalty as int,
            gap_extend: self.gap_extend_penalty as int,
            end_gap_open: self.end_gap_penalty as int,
            end_gap_extend: self.end_gap_extend_penalty as int,
        }
    }
}

/// Makes an aligner with the given scores.
pub fn make_aligner(
    match_score: i16,
    mismatch_score: i16,
    end_open_gap_score: i16,
    end_extend_gap_score: i16,
    internal_open_gap_score: i16,
    internal_extend_gap_score: i16,
) -> (r: Aligner)
    ensures
        r@ == (Scoring {
            match_score: match_score as int,
            mismatch_score: mismatch_score as int,
            gap_open: internal_open_gap_score as int,
            gap_extend: internal_extend_gap_score as int,
            end_gap_open: end_open_gap_score as int,
            end_gap_extend: end_extend_gap_score as int,
        }),
{
    Aligner {
        match_score,
        mismatch_score,
        end_gap_penalty: end_open_gap_score,
        end_gap_extend_penalty: end_extend_gap_score,
        gap_penalty: internal_open_gap_score,
        gap_extend_penalty: internal_extend_gap_score,
    }
}

impl Default for Aligner {
    /// Match 1, mismatch -1, internal gaps -100 to open and -10 to extend,
    /// end gaps -2 to open and -1 to extend.
    fn default() -> (r: Aligner)
        ensures
            r@ == (Scoring {
                match_score: 1,
                mismatch_score: -1,
                gap_open: -100,
                gap_extend: -10,
                end_gap_open: -2,
                end_gap_extend: -1,
            }),
    {
        Aligner {
            match_score: 1,
            mismatch_score: -1,
            gap_penalty: -100,
            gap_extend_penalty: -10,
            end_gap_penalty: -2,
            end_gap_extend_penalty: -1,
        }
    }
}

impl Aligner {
    /// Every parameter of an aligner fits in an `i16`.
    pub proof fn lemma_bounded(&self)
        ensures
            self@.bounded(),
    {
    }

    /// The cost of a gap step, as the table's arithmetic uses it.
    fn gap_step(&self, extending: bool, terminal: bool) -> (r: i128)
        ensures
            r == gap_cost(self@, extending, terminal),
    {
        if extending {
            if terminal {
                self.end_gap_extend_penalty as i128
            } else {
                self.gap_extend_penalty as i128
            }
        } else {
            if terminal {
                self.end_gap_penalty as i128
            } else {
                self.gap_penalty as i128
            }
        }
    }

    /// Builds the Needleman-Wunsch table for `target` (horizontal) and
    /// `query` (vertical): cell `(i, j)` holds the recurrence's direction and
    /// score.
    pub fn align(&self, target: &[u8], query: &[u8]) -> (r: Grid)
        requires
            (target@.len() + 1) * (query@.len() + 1) <= usize::MAX,
        ensures
            r.wf(),
            r.width() == target@.len() + 1,
            r.height() == query@.len() + 1,
            forall|i: int, j: int|
                0 <= i <= target@.len() && 0 <= j <= query@.len() ==> holds_cell(
                    r,
                    self@,
                    target@,
                    query@,
                    i,
                    j,
                ),
    {
        let ghost s = self@;
        let ghost t = target@;
        let ghost q = query@;
        let tl = target.len();
        let ql = query.len();
        proof {
            assert(tl + 1 <= (tl + 1) * (ql + 1)) by (nonlinear_arith)
                requires
                    0 <= ql,
                    0 <= tl,
            ;
            assert(ql + 1 <= (tl + 1) * (ql + 1)) by (nonlinear_arith)
                requires
                    0 <= ql,
                    0 <= tl,
            ;
            self.lemma_bounded();
        }
        let mut table = Grid::new(tl + 1, ql + 1);
        table.set(0, 0, Score { dir: Dir::Diagonal, score: 0 });
        let open = self.end_gap_penalty as i128;
        let extend = self.end_gap_extend_penalty as i128;
        let mut i: usize = 0;
        while i < tl
            invariant
                table.wf(),
                table.width() == tl + 1,
                table.height() == ql + 1,
                i <= tl,
                s == self@,
                s.bounded(),
                open == s.end_gap_open,
                extend == s.end_gap_extend,
                forall|ii: int| 0 <= ii <= i ==> #[trigger] holds_cell(table, s, t, q, ii, 0),
            decreases tl - i,
        {
            proof {
                assert(-0x1_0000_0000_0000_0000_0000 <= i * extend <= 0x1_0000_0000_0000_0000_0000)
                    by (nonlinear_arith)
                    requires
                        0 <= i <= usize::MAX,
                        -32768 <= extend <= 32767,
                ;
            }
            let ghost prev = table;
            table.set(i + 1, 0, Score { dir: Dir::Left, score: open + (i as i128) * extend });
            proof {
                assert forall|ii: int| 0 <= ii <= i + 1 implies #[trigger] holds_cell(
                    table,
                    s,
                    t,
                    q,
                    ii,
                    0,
                ) by {
                    if ii <= i {
                        assert(holds_cell(prev, s, t, q, ii, 0));
                    }
                }
            }
            i = i + 1;
        }
        let mut j: usize = 0;
        while j < ql
            invariant
                table.wf(),
                table.width() == tl + 1,
                table.height() == ql + 1,
                j <= ql,
                s == self@,
                s.bounded(),
                open == s.end_gap_open,
                extend == s.end_gap_extend,
                forall|ii: int| 0 <= ii <= tl ==> #[trigger] holds_cell(table, s, t, q, ii, 0),
                forall|jj: int| 0 <= jj <= j ==> #[trigger] holds_cell(table, s, t, q, 0, jj),
            decreases ql - j,
        {
            proof {
                assert(-0x1_0000_0000_0000_0000_0000 <= j * extend <= 0x1_0000_0000_0000_0000_0000)
                    by (nonlinear_arith)
                    requires
                        0 <= j <= usize::MAX,
                        -32768 <= extend <= 32767,
                ;
            }
            let ghost prev = table;
            table.set(0, j + 1, Score { dir: Dir::Up, score: open + (j as i128) * extend });
            proof {
                assert forall|jj: int| 0 <= jj <= j + 1 implies #[trigger] holds_cell(
                    table,
                    s,
                    t,
                    q,
                    0,
                    jj,
                ) by {
                    if jj <= j {
                        assert(holds_cell(prev, s, t, q, 0, jj));
                    }
                }
                assert forall|ii: int| 0 <= ii <= tl implies #[trigger] holds_cell(
                    table,
                    s,
                    t,
                    q,
                    ii,
                    0,
                ) by {
                    assert(holds_cell(prev, s, t, q, ii, 0));
                }
            }
            j = j + 1;
        }
        self.fill(target, query, &mut table);
        table
    }

    /// The two aligned rows of `target` and `query`, left to right, with
    /// `GAP` where one sequence has no counterpart.
    pub fn align_bytes(&self, target: &[u8], query: &[u8]) -> (r: (Vec<u8>, Vec<u8>))
        requires
            (target@.len() + 1) * (query@.len() + 1) <= usize::MAX,
        ensures
            r.0@ == alignment(self@, target@, query@).0,
            r.1@ == alignment(self@, target@, query@).1,
    {
        let ghost s = self@;
        let ghost t = target@;
        let ghost q = query@;
        let table = self.align(target, query);
        let mut i: usize = target.len();
        let mut j: usize = query.len();
        let mut rev_t: Vec<u8> = Vec::new();
        let mut rev_q: Vec<u8> = Vec::new();
        while i > 0 || j > 0
            invariant
                s == self@,
                t == target@,
                q == query@,
                table.wf(),
                table.width() == t.len() + 1,
                table.height() == q.len() + 1,
                forall|ii: int, jj: int|
                    0 <= ii <= t.len() && 0 <= jj <= q.len() ==> holds_cell(table, s, t, q, ii, jj),
                i <= t.len(),
                j <= q.len(),
                trace(s, t, q, i as nat, j as nat).0 + rev_t@.reverse() == alignment(s, t, q).0,
                trace(s, t, q, i as nat, j as nat).1 + rev_q@.reverse() == alignment(s, t, q).1,
            decreases i + j,
        {
            let current = table.get(i, j);
            proof {
                assert(holds_cell(table, s, t, q, i as int, j as int));
                lemma_dir_shape(s, t, q, i as int, j as int);
            }
            let ghost old_t = rev_t@;
            let ghost old_q = rev_q@;
            let ghost p = trace(s, t, q, i as nat, j as nat);
            let (target_c, query_c) = match current.dir {
                Dir::Diagonal => (target[i - 1], query[j - 1]),
                Dir::Up => (GAP, query[j - 1]),
                Dir::Left => (target[i - 1], GAP),
            };
            rev_t.push(target_c);
            rev_q.push(query_c);
            match current.dir {
                Dir::Diagonal => {
                    i = i - 1;
                    j = j - 1;
                },
                Dir::Up => {
                    j = j - 1;
                },
                Dir::Left => {
                    i = i - 1;
                },
            }
            proof {
                let n = trace(s, t, q, i as nat, j as nat);
                assert(p.0 == n.0.push(target_c));
                assert(p.1 == n.1.push(query_c));
                lemma_reverse_push(old_t, target_c);
                lemma_reverse_push(old_q, query_c);
                assert(n.0 + rev_t@.reverse() =~= p.0 + old_t.reverse());
                assert(n.1 + rev_q@.reverse() =~= p.1 + old_q.reverse());
            }
        }
        assert(rev_t@.reverse() =~= alignment(s, t, q).0);
        assert(rev_q@.reverse() =~= alignment(s, t, q).1);
        (reversed(&rev_t), reversed(&rev_q))
    }

    /// The two aligned rows of `target` and `query` as text, `-` marking a
    /// gap. Fails when a row is not valid UTF-8, which cannot happen for
    /// ASCII input.
    pub fn align_to_str(&self, target: &str, query: &str) -> (r: Result<(String, String), EncodingError>)
        requires
            (target.spec_bytes().len() + 1) * (query.spec_bytes().len() + 1) <= usize::MAX,
        ensures
            ({
                let a = alignment(self@, target.spec_bytes(), query.spec_bytes());
                match r {
                    Ok(rows) => valid_utf8(a.0) && valid_utf8(a.1) && rows.0@ == decode_utf8(a.0)
                        && rows.1@ == decode_utf8(a.1),
                    Err(EncodingError::Target) => !valid_utf8(a.0),
                    Err(EncodingError::Query) => valid_utf8(a.0) && !valid_utf8(a.1),
                }
            }),
            is_ascii(target) && is_ascii(query) ==> r.is_ok(),
            is_ascii(target) && is_ascii(query) && r.is_ok() ==> ({
                let a = alignment(self@, target.spec_bytes(), query.spec_bytes());
                r.unwrap().0@ == as_text(a.0) && r.unwrap().1@ == as_text(a.1)
            }),
    {
        let target_bytes = target.as_bytes();
        let query_bytes = query.as_bytes();
        let (target_align, query_align) = self.align_bytes(target_bytes, query_bytes);
        proof {
            let a = alignment(self@, target.spec_bytes(), query.spec_bytes());
            if is_ascii(target) && is_ascii(query) {
                assert(ascii_bytes(target.spec_bytes()));
                assert(ascii_bytes(query.spec_bytes()));
                lemma_trace_ascii(
                    self@,
                    target.spec_bytes(),
                    query.spec_bytes(),
                    target.spec_bytes().len(),
                    query.spec_bytes().len(),
                );
                lemma_ascii_text(a.0);
                lemma_ascii_text(a.1);
            }
        }
        match string_from_utf8(target_align) {
            None => Err(EncodingError::Target),
            Some(x) => match string_from_utf8(query_align) {
                None => Err(EncodingError::Query),
                Some(y) => Ok((x, y)),
            },
        }
    }

    /// Fills every inner cell of a table whose first row and first column
    /// already hold the recurrence.
    fn fill(&self, target: &[u8], query: &[u8], table: &mut Grid)
        requires
            old(table).wf(),
            old(table).width() == target@.len() + 1,
            old(table).height() == query@.len() + 1,
            forall|ii: int|
                0 <= ii <= target@.len() ==> #[trigger] holds_cell(
                    *old(table),
                    self@,
                    target@,
                    query@,
                    ii,
                    0,
                ),
            forall|jj: int|
                0 <= jj <= query@.len() ==> #[trigger] holds_cell(
                    *old(table),
                    self@,
                    target@,
                    query@,
                    0,
                    jj,
                ),
        ensures
            final(table).wf(),
            final(table).width() == target@.len() + 1,
            final(table).height() == query@.len() + 1,
            forall|i: int, j: int|
                0 <= i <= target@.len() && 0 <= j <= query@.len() ==> holds_cell(
                    *final(table),
                    self@,
                    target@,
                    query@,
                    i,
                    j,
                ),
    {
        let ghost s = self@;
        let ghost t = target@;
        let ghost q = query@;
        proof {
            self.lemma_bounded();
        }
        let tl = target.len();
        let ql = query.len();
        let mut j: usize = 0;
        while j < ql
            invariant
                table.wf(),
                table.width() == tl + 1,
                table.height() == ql + 1,
                t == target@,
                q == query@,
                tl == t.len(),
                ql == q.len(),
                j <= ql,
                s == self@,
                s.bounded(),
                forall|ii: int, jj: int|
                    0 <= ii <= tl && 0 <= jj <= ql && (jj <= j || ii == 0) ==> #[trigger] holds_cell(
                        *table,
                        s,
                        t,
                        q,
                        ii,
                        jj,
                    ),
            decreases ql - j,
        {
            let mut i: usize = 0;
            while i < tl
                invariant
                    table.wf(),
                    table.width() == tl + 1,
                    table.height() == ql + 1,
                    t == target@,
                    q == query@,
                    tl == t.len(),
                    ql == q.len(),
                    i <= tl,
                    j < ql,
                    s == self@,
                    s.bounded(),
                    forall|ii: int, jj: int|
                        0 <= ii <= tl && 0 <= jj <= ql && (jj <= j || ii == 0 || (jj == j + 1
                            && ii <= i)) ==> #[trigger] holds_cell(*table, s, t, q, ii, jj),
                decreases tl - i,
            {
                let left_cell = table.get(i, j + 1);
                let up_cell = table.get(i + 1, j);
                let diag_cell = table.get(i, j);
                proof {
                    assert(holds_cell(*table, s, t, q, i as int, j + 1));
                    assert(holds_cell(*table, s, t, q, i + 1, j as int));
                    assert(holds_cell(*table, s, t, q, i as int, j as int));
                    lemma_score_bound(s, t, q, i as int, j + 1);
                    lemma_score_bound(s, t, q, i + 1, j as int);
                    lemma_score_bound(s, t, q, i as int, j as int);
                }
                // In the last row a horizontal gap is an end gap; in the last
                // column a vertical one is.
                let left_score = left_cell.score + self.gap_step(
                    left_cell.dir == Dir::Left,
                    j == ql - 1,
                );
                let up_score = up_cell.score + self.gap_step(up_cell.dir == Dir::Up, i == tl - 1);
                let diag_score = diag_cell.score + if target[i] == query[j] {
                    self.match_score as i128
                } else {
                    self.mismatch_score as i128
                };
                let new_score = if left_score <= diag_score && up_score <= diag_score {
                    Score { dir: Dir::Diagonal, score: diag_score }
                } else if left_score <= up_score {
                    Score { dir: Dir::Up, score: up_score }
                } else {
                    Score { dir: Dir::Left, score: left_score }
                };
                let ghost prev = *table;
                table.set(i + 1, j + 1, new_score);
                proof {
                    assert forall|ii: int, jj: int|
                        0 <= ii <= tl && 0 <= jj <= ql && (jj <= j || ii == 0 || (jj == j + 1
                            && ii <= i + 1)) implies #[trigger] holds_cell(
                        *table,
                        s,
                        t,
                        q,
                        ii,
                        jj,
                    ) by {
                        if ii != i + 1 || jj != j + 1 {
                            assert(holds_cell(prev, s, t, q, ii, jj));
                        }
                    }
                }
                i = i + 1;
            }
            j = j + 1;
        }
    }
}

} // verus!
