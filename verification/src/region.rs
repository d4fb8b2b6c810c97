//! Regions: named half-open intervals, and the lexicographic order on their
//! sequence names.

use vstd::prelude::*;

verus! {

/// Mathematical description of a region: the half-open interval
/// `[begin, end)` on the sequence named `chrom`.
pub ghost struct RegionModel {
    pub chrom: Seq<char>,
    pub begin: u32,
    pub end: u32,
}

/// Strict lexicographic order on character sequences, comparing code points.
pub open spec fn lex_lt(a: Seq<char>, b: Seq<char>) -> bool
    decreases a.len(),
{
    if b.len() == 0 {
        false
    } else if a.len() == 0 {
        true
    } else if (a[0] as u32) < (b[0] as u32) {
        true
    } else if a[0] == b[0] {
        lex_lt(a.drop_first(), b.drop_first())
    } else {
        false
    }
}

/// Strict order on boundary positions: by sequence name first, then by
/// coordinate.
pub open spec fn pos_lt(c1: Seq<char>, x1: u32, c2: Seq<char>, x2: u32) -> bool {
    lex_lt(c1, c2) || (c1 == c2 && x1 < x2)
}

/// The lexicographic order is transitive.
pub proof fn lemma_lex_lt_trans(a: Seq<char>, b: Seq<char>, c: Seq<char>)
    requires
        lex_lt(a, b),
        lex_lt(b, c),
    ensures
        lex_lt(a, c),
    decreases a.len(),
{
    if a.len() > 0 && (a[0] as u32) >= (b[0] as u32) && a[0] == b[0] && (b[0] as u32) >= (c[0]
        as u32) && b[0] == c[0] {
        lemma_lex_lt_trans(a.drop_first(), b.drop_first(), c.drop_first());
    }
}

/// Non-strict order on boundary positions: strictly before, or the same
/// position.
pub open spec fn pos_le(c1: Seq<char>, x1: u32, c2: Seq<char>, x2: u32) -> bool {
    pos_lt(c1, x1, c2, x2) || (c1 == c2 && x1 == x2)
}

/// Characters with the same code point are the same character.
proof fn lemma_char_inj(x: char, y: char)
    requires
        (x as u32) == (y as u32),
    ensures
        x == y,
{
}

/// The lexicographic order is connex: two character sequences are ordered
/// one way or the other, or they are equal.
pub proof fn lemma_lex_lt_connex(a: Seq<char>, b: Seq<char>)
    ensures
        lex_lt(a, b) || lex_lt(b, a) || a == b,
    decreases a.len(),
{
    if a.len() == 0 && b.len() == 0 {
        assert(a =~= b);
    } else if a.len() > 0 && b.len() > 0 && !((a[0] as u32) < (b[0] as u32)) && !((b[0] as u32)
        < (a[0] as u32)) {
        lemma_char_inj(a[0], b[0]);
        lemma_lex_lt_connex(a.drop_first(), b.drop_first());
        if !lex_lt(a.drop_first(), b.drop_first()) && !lex_lt(b.drop_first(), a.drop_first()) {
            assert(a =~= b) by {
                assert(forall|i: int|
                    1 <= i < a.len() ==> a[i] == a.drop_first()[i - 1] && b[i] == b.drop_first()[i
                        - 1]);
            }
        }
    }
}

/// The position order is total: either one position is strictly before the
/// other, or the other is at or before the first.
pub proof fn lemma_pos_total(c1: Seq<char>, x1: u32, c2: Seq<char>, x2: u32)
    ensures
        pos_lt(c1, x1, c2, x2) || pos_le(c2, x2, c1, x1),
{
    lemma_lex_lt_connex(c1, c2);
}

/// The non-strict position order is transitive.
pub proof fn lemma_pos_le_trans(c1: Seq<char>, x1: u32, c2: Seq<char>, x2: u32, c3: Seq<char>, x3: u32)
    requires
        pos_le(c1, x1, c2, x2),
        pos_le(c2, x2, c3, x3),
    ensures
        pos_le(c1, x1, c3, x3),
{
    if pos_lt(c1, x1, c2, x2) && pos_lt(c2, x2, c3, x3) {
        lemma_pos_lt_trans(c1, x1, c2, x2, c3, x3);
    }
}

/// The lexicographic order is irreflexive.
pub proof fn lemma_lex_lt_irrefl(a: Seq<char>)
    ensures
        !lex_lt(a, a),
    decreases a.len(),
{
    if a.len() > 0 {
        lemma_lex_lt_irrefl(a.drop_first());
    }
}

/// The position order is transitive.
pub proof fn lemma_pos_lt_trans(c1: Seq<char>, x1: u32, c2: Seq<char>, x2: u32, c3: Seq<char>, x3: u32)
    requires
        pos_lt(c1, x1, c2, x2),
        pos_lt(c2, x2, c3, x3),
    ensures
        pos_lt(c1, x1, c3, x3),
{
    if lex_lt(c1, c2) && lex_lt(c2, c3) {
        lemma_lex_lt_trans(c1, c2, c3);
    }
}

/// Three-way lexicographic comparison of two string slices.
pub fn str_cmp(a: &str, b: &str) -> (r: core::cmp::Ordering)
    ensures
        (r == core::cmp::Ordering::Less) == lex_lt(a@, b@),
        (r == core::cmp::Ordering::Equal) == (a@ == b@),
        (r == core::cmp::Ordering::Greater) == lex_lt(b@, a@),
{
    let alen: usize = a.unicode_len();
    let blen: usize = b.unicode_len();
    let mut i: usize = 0;
    proof {
        assert(a@.skip(0) =~= a@);
        assert(b@.skip(0) =~= b@);
    }
    loop
        invariant
            i <= alen,
            i <= blen,
            alen == a@.len(),
            blen == b@.len(),
            a@.take(i as int) == b@.take(i as int),
            lex_lt(a@, b@) == lex_lt(a@.skip(i as int), b@.skip(i as int)),
            lex_lt(b@, a@) == lex_lt(b@.skip(i as int), a@.skip(i as int)),
        decreases blen - i,
    {
        if i >= blen {
            if i >= alen {
                proof {
                    assert(a@.take(i as int) =~= a@);
                    assert(b@.take(i as int) =~= b@);
                }
                return core::cmp::Ordering::Equal;
            } else {
                proof {
                    assert(a@.len() != b@.len());
                }
                return core::cmp::Ordering::Greater;
            }
        }
        if i >= alen {
            return core::cmp::Ordering::Less;
        }
        let ca = a.get_char(i);
        let cb = b.get_char(i);
        if (ca as u32) < (cb as u32) {
            return core::cmp::Ordering::Less;
        }
        if (cb as u32) < (ca as u32) {
            proof {
                assert(a@ != b@) by {
                    assert(a@[i as int] != b@[i as int]);
                }
            }
            return core::cmp::Ordering::Greater;
        }
        proof {
            assert(ca == cb) by {
                assert(ca as u32 == cb as u32);
            }
            assert(a@.skip(i as int).drop_first() =~= a@.skip(i + 1));
            assert(b@.skip(i as int).drop_first() =~= b@.skip(i + 1));
            assert(a@.take(i + 1) =~= b@.take(i + 1));
        }
        i = i + 1;
    }
}

/// The capability a sweepable value must expose: a sequence name, a begin
/// coordinate, an end coordinate, and cheap duplication.
pub trait WithRegion: Sized {
    /// The region this value stands for.
    spec fn model(&self) -> RegionModel;

    /// The name of the sequence the interval lies on.
    fn chrom(&self) -> (r: &str)
        ensures
            r@ == self.model().chrom,
    ;

    /// The inclusive begin coordinate of the interval.
    fn begin(&self) -> (r: u32)
        ensures
            r == self.model().begin,
    ;

    /// The exclusive end coordinate of the interval.
    fn end(&self) -> (r: u32)
        ensures
            r == self.model().end,
    ;

    /// An independently owned copy of this value, standing for the same
    /// region.
    fn dup(&self) -> (r: Self)
        ensures
            r.model() == self.model(),
    ;
}

/// A plain owned region: the simplest sweepable value.
pub struct Region {
    chrom: String,
    begin: u32,
    end: u32,
}

impl Region {
    /// Builds the region `[begin, end)` on the sequence named `chrom`.
    pub fn new(chrom: String, begin: u32, end: u32) -> (r: Region)
        ensures
            r.model() == (RegionModel { chrom: chrom@, begin, end }),
    {
        Region { chrom, begin, end }
    }
}

impl WithRegion for Region {
    closed spec fn model(&self) -> RegionModel {
        RegionModel { chrom: self.chrom@, begin: self.begin, end: self.end }
    }

    fn chrom(&self) -> (r: &str) {
        self.chrom.as_str()
    }

    fn begin(&self) -> (r: u32) {
        self.begin
    }

    fn end(&self) -> (r: u32) {
        self.end
    }

    fn dup(&self) -> (r: Region) {
        Region { chrom: self.chrom.clone(), begin: self.begin, end: self.end }
    }
}

} // verus!
