//! Line and column numbers of byte offsets, for reporting diagnostics.
use vstd::prelude::*;
use vstd::string::StringSliceAdditionalSpecFns;

verus! {

/// Offsets at which the lines of `b` start: 0, then one past each `\n`.
pub open spec fn line_starts(b: Seq<u8>) -> Seq<usize>
    decreases b.len(),
{
    if b.len() == 0 {
        seq![0usize]
    } else if b.last() == 10 {
        line_starts(b.drop_last()).push(b.len() as usize)
    } else {
        line_starts(b.drop_last())
    }
}

/// Number of `\n` bytes among the first `k` bytes of `b`.
pub open spec fn newlines_before(b: Seq<u8>, k: int) -> nat
    decreases k,
{
    if k <= 0 {
        0
    } else {
        newlines_before(b, k - 1) + if b[k - 1] == 10 {
            1nat
        } else {
            0nat
        }
    }
}

/// Start of the line holding the first `k` bytes' end: one past the last
/// `\n` among them, or 0.
pub open spec fn line_start_before(b: Seq<u8>, k: int) -> int
    decreases k,
{
    if k <= 0 {
        0
    } else if b[k - 1] == 10 {
        k
    } else {
        line_start_before(b, k - 1)
    }
}

/// The part of `b` an offset `offset` reaches: offsets past the end count as the end.
pub open spec fn clamp(b: Seq<u8>, offset: int) -> int {
    if offset < b.len() {
        offset
    } else {
        b.len() as int
    }
}

/// One-based line of `offset` in the text `b`.
pub open spec fn line_of(b: Seq<u8>, offset: int) -> int {
    newlines_before(b, clamp(b, offset)) as int + 1
}

/// One-based column (in bytes) of `offset` in the text `b`.
pub open spec fn column_of(b: Seq<u8>, offset: int) -> int {
    offset - line_start_before(b, clamp(b, offset)) + 1
}

/// Locations are one-based: offset 0 is line 1, column 1; the byte after a
/// `\n` begins the next line at column 1; after any other byte the line stays
/// and the column grows by one.
pub proof fn locations_advance_by_byte(b: Seq<u8>, i: int)
    requires
        0 <= i < b.len(),
    ensures
        line_of(b, 0) == 1,
        column_of(b, 0) == 1,
        b[i] == 10 ==> line_of(b, i + 1) == line_of(b, i) + 1 && column_of(b, i + 1) == 1,
        b[i] != 10 ==> line_of(b, i + 1) == line_of(b, i) && column_of(b, i + 1) == column_of(b, i)
            + 1,
{
}

/// Starts of the lines of a source text.
pub struct LineIndex {
    starts: Vec<usize>,
    text: Ghost<Seq<u8>>,
}

impl View for LineIndex {
    type V = Seq<u8>;

    /// The bytes of the indexed text.
    closed spec fn view(&self) -> Seq<u8> {
        self.text@
    }
}

/// The facts about `line_starts(b)` that finding a line needs.
proof fn lemma_line_starts(b: Seq<u8>)
    requires
        b.len() <= usize::MAX,
    ensures
        line_starts(b).len() == newlines_before(b, b.len() as int) + 1,
        line_starts(b)[0] == 0,
        forall|m: int, n: int|
            0 <= m < n < line_starts(b).len() ==> line_starts(b)[m] < line_starts(b)[n],
        forall|m: int| 0 <= m < line_starts(b).len() ==> line_starts(b)[m] <= b.len(),
        forall|k: int|
            0 <= k <= b.len() ==> {
                &&& #[trigger] newlines_before(b, k) < line_starts(b).len()
                &&& line_starts(b)[newlines_before(b, k) as int] == line_start_before(b, k)
                &&& newlines_before(b, k) + 1 < line_starts(b).len() ==> line_starts(b)[newlines_before(b, k) as int + 1] > k
            },
    decreases b.len(),
{
    if b.len() > 0 {
        let p = b.drop_last();
        let sp = line_starts(p);
        let sb = line_starts(b);
        lemma_line_starts(p);
        assert(p =~= b.take(p.len() as int));
        assert forall|k: int| 0 <= k <= p.len() implies newlines_before(b, k) == newlines_before(p, k)
            && line_start_before(b, k) == line_start_before(p, k) by {
            lemma_prefix_counts(b, p, k);
        }
        assert forall|m: int| 0 <= m < sp.len() implies sb[m] == sp[m] by {}
        assert forall|m: int, n: int| 0 <= m < n < sb.len() implies sb[m] < sb[n] by {
            if n == sp.len() {
                assert(sp[m] <= p.len());
            }
        }
        assert forall|k: int| 0 <= k <= b.len() implies {
            &&& #[trigger] newlines_before(b, k) < sb.len()
            &&& sb[newlines_before(b, k) as int] == line_start_before(b, k)
            &&& newlines_before(b, k) + 1 < sb.len() ==> sb[newlines_before(b, k) as int + 1] > k
        } by {
            if k <= p.len() {
                assert(newlines_before(p, k) < sp.len());
                if newlines_before(b, k) + 1 == sp.len() && sb.len() > sp.len() {
                    assert(sb[sp.len() as int] == b.len());
                }
            } else {
                assert(k == b.len());
                assert(newlines_before(p, p.len() as int) < sp.len());
                if b.last() != 10 {
                    assert(newlines_before(b, k) == newlines_before(p, p.len() as int));
                    assert(line_start_before(b, k) == line_start_before(p, p.len() as int));
                    if newlines_before(b, k) + 1 < sb.len() {
                        let q = newlines_before(b, k) as int + 1;
                        assert(sp[q] <= p.len());
                        assert(sp[q] > p.len());
                    }
                }
            }
        }
    }
}

proof fn lemma_line_start_before(b: Seq<u8>, k: int)
    ensures
        0 <= line_start_before(b, k) <= if k < 0 {
            0
        } else {
            k
        },
    decreases k,
{
    if k > 0 {
        lemma_line_start_before(b, k - 1);
    }
}

/// Counting over the first `k` bytes only looks at those bytes.
proof fn lemma_prefix_counts(b: Seq<u8>, p: Seq<u8>, k: int)
    requires
        0 <= k <= p.len() <= b.len(),
        p == b.take(p.len() as int),
    ensures
        newlines_before(b, k) == newlines_before(p, k),
        line_start_before(b, k) == line_start_before(p, k),
    decreases k,
{
    if k > 0 {
        lemma_prefix_counts(b, p, k - 1);
        assert(b[k - 1] == p[k - 1]);
    }
}

impl LineIndex {
    #[verifier::type_invariant]
    spec fn starts_of_text(self) -> bool {
        &&& self.starts@ == line_starts(self.text@)
        &&& self.text@.len() <= usize::MAX
    }

    /// Indexes the lines of `source`.
    pub fn new(source: &str) -> (index: Self)
        ensures
            index@ == source.spec_bytes(),
    {
        let bytes = source.as_bytes();
        let mut starts: Vec<usize> = vec![0];
        let mut i: usize = 0;
        assert(bytes@.take(0) =~= Seq::<u8>::empty());
        while i < bytes.len()
            invariant
                i <= bytes.len(),
                starts@ == line_starts(bytes@.take(i as int)),
            decreases bytes.len() - i,
        {
            assert(bytes@.take(i + 1).drop_last() =~= bytes@.take(i as int));
            if bytes[i] == 10u8 {
                starts.push(i + 1);
            }
            i = i + 1;
        }
        assert(bytes@.take(bytes.len() as int) =~= bytes@);
        LineIndex { starts, text: Ghost(bytes@) }
    }

    /// The one-based line and column of byte offset `offset`.
    pub fn line_column(&self, offset: usize) -> (lc: (usize, usize))
        requires
            column_of(self@, offset as int) <= usize::MAX,
        ensures
            lc.0 == line_of(self@, offset as int),
            lc.1 == column_of(self@, offset as int),
    {
        proof {
            use_type_invariant(self);
            lemma_line_starts(self.text@);
        }
        let ghost b = self.text@;
        let ghost k = clamp(b, offset as int);
        let ghost nb = newlines_before(b, k);
        assert(self.starts@[nb as int] == line_start_before(b, k));
        proof {
            lemma_line_start_before(b, k);
        }
        let mut lo: usize = 0;
        let mut hi: usize = self.starts.len();
        while lo < hi
            invariant
                0 <= lo <= hi <= self.starts.len(),
                self.starts@ == line_starts(b),
                forall|m: int, n: int|
                    0 <= m < n < self.starts.len() ==> self.starts@[m] < self.starts@[n],
                forall|m: int| 0 <= m < lo ==> self.starts@[m] <= offset,
                forall|m: int| hi <= m < self.starts.len() ==> self.starts@[m] > offset,
            decreases hi - lo,
        {
            let mid = lo + (hi - lo) / 2;
            if self.starts[mid] <= offset {
                lo = mid + 1;
            } else {
                hi = mid;
            }
        }
        assert(self.starts@[0] == 0);
        assert(lo >= 1);
        assert(lo - 1 == nb) by {
            if nb + 1 < self.starts.len() {
                assert(self.starts@[nb as int + 1] > k);
            }
            if lo - 1 < nb {
                assert(self.starts@[nb as int] <= k);
                assert(k <= offset);
            }
            if lo - 1 > nb {
                assert(self.starts@[nb as int + 1] <= offset);
                assert(self.starts@[nb as int + 1] <= b.len());
            }
        }
        let line_index = lo - 1;
        let line_start = self.starts[line_index];
        (line_index + 1, offset - line_start + 1)
    }
}

} // verus!
