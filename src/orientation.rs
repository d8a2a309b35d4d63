use vstd::arithmetic::power2::{lemma2_to64, pow2};
use vstd::prelude::*;
use vstd::string::StrSliceExecFns;

use crate::error::HashError;
use crate::utils::{bin_to_hex, bits_of_hex, hex_char_to_bin, hex_of, hex_value, is_hex, nibble};

verus! {

/// The number of positions at which two bit sequences of equal length differ.
pub open spec fn diff_count(a: Seq<bool>, b: Seq<bool>) -> nat
    decreases a.len(),
{
    if a.len() == 0 {
        0
    } else {
        diff_count(a.drop_last(), b.drop_last()) + if a.last() != b.last() { 1nat } else { 0nat }
    }
}

/// The lossy digest of a bit sequence: each set bit at position `i` adds `2^(i mod 8)`.
pub open spec fn bit_digest(s: Seq<bool>) -> nat
    decreases s.len(),
{
    if s.len() == 0 {
        0
    } else {
        bit_digest(s.drop_last()) + if s.last() { pow2(((s.len() - 1) % 8) as nat) } else { 0nat }
    }
}

/// Whether `r` is the integer square root of `n`.
pub open spec fn is_isqrt(n: nat, r: nat) -> bool {
    r * r <= n < (r + 1) * (r + 1)
}

/// The integer square root of `n`.
pub open spec fn isqrt(n: nat) -> nat {
    choose|r: nat| is_isqrt(n, r)
}

/// Whether `rows`, read one after another, hold `bits`, every row but the last
/// `width` bits long and the last one between 1 and `width` bits long.
pub open spec fn laid_out(rows: Seq<Seq<bool>>, bits: Seq<bool>, width: nat) -> bool {
    &&& rows.flatten() == bits
    &&& forall|i: int| 0 <= i < rows.len() ==> 0 < (#[trigger] rows[i]).len() <= width
    &&& forall|i: int| 0 <= i < rows.len() - 1 ==> (#[trigger] rows[i]).len() == width
}

/// One orientation's fingerprint: a matrix of bits, compared by Hamming distance.
#[derive(Debug)]
pub struct OrientationHash {
    pub hash: Vec<Vec<bool>>,
}

pub proof fn lemma_isqrt_unique(n: nat, a: nat, b: nat)
    requires
        is_isqrt(n, a),
        is_isqrt(n, b),
    ensures
        a == b,
{
    if a < b {
        assert((a + 1) * (a + 1) <= b * b) by (nonlinear_arith)
            requires
                a + 1 <= b,
        ;
    } else if b < a {
        assert((b + 1) * (b + 1) <= a * a) by (nonlinear_arith)
            requires
                b + 1 <= a,
        ;
    }
}

proof fn lemma_diff_count_bound(a: Seq<bool>, b: Seq<bool>)
    ensures
        diff_count(a, b) <= a.len(),
    decreases a.len(),
{
    if a.len() > 0 {
        lemma_diff_count_bound(a.drop_last(), b.drop_last());
    }
}

proof fn lemma_diff_count_zero(a: Seq<bool>, b: Seq<bool>)
    requires
        a.len() == b.len(),
    ensures
        (diff_count(a, b) == 0) == (a == b),
    decreases a.len(),
{
    if a.len() > 0 {
        lemma_diff_count_zero(a.drop_last(), b.drop_last());
        if a == b {
            assert(a.drop_last() == b.drop_last());
        } else if diff_count(a, b) == 0 {
            assert(a.drop_last() == b.drop_last());
            assert(a =~= a.drop_last().push(a.last()));
            assert(b =~= b.drop_last().push(b.last()));
        }
    } else {
        assert(a =~= b);
    }
}

/// The Hamming distance is symmetric.
pub proof fn lemma_diff_count_symmetric(a: Seq<bool>, b: Seq<bool>)
    requires
        a.len() == b.len(),
    ensures
        diff_count(a, b) == diff_count(b, a),
    decreases a.len(),
{
    if a.len() > 0 {
        lemma_diff_count_symmetric(a.drop_last(), b.drop_last());
    }
}

/// Two bit sequences of equal length that differ at every position are as far apart
/// as they are long.
pub proof fn lemma_diff_count_complement(a: Seq<bool>, b: Seq<bool>)
    requires
        a.len() == b.len(),
        forall|i: int| 0 <= i < a.len() ==> a[i] != b[i],
    ensures
        diff_count(a, b) == a.len(),
    decreases a.len(),
{
    if a.len() > 0 {
        lemma_diff_count_complement(a.drop_last(), b.drop_last());
    }
}

/// A bit sequence is at distance zero from itself.
pub proof fn lemma_diff_count_self(a: Seq<bool>)
    ensures
        diff_count(a, a) == 0,
{
    lemma_diff_count_zero(a, a);
}

proof fn lemma_bit_digest_prefix(s: Seq<bool>, k: nat)
    requires
        k <= s.len(),
    ensures
        bit_digest(s.take(k as int)) <= bit_digest(s),
    decreases s.len() - k,
{
    if k < s.len() {
        lemma_bit_digest_prefix(s, k + 1);
        assert(s.take(k + 1 as int).drop_last() =~= s.take(k as int));
    } else {
        assert(s.take(k as int) =~= s);
    }
}

proof fn lemma_bits_of_hex_push(t: Seq<char>, c: char)
    requires
        hex_value(c).is_some(),
    ensures
        bits_of_hex(t.push(c)) =~= bits_of_hex(t) + nibble(hex_value(c).unwrap()),
{
    let lhs = bits_of_hex(t.push(c));
    let rhs = bits_of_hex(t) + nibble(hex_value(c).unwrap());
    assert forall|k: int| 0 <= k < lhs.len() implies lhs[k] == rhs[k] by {
        if k < 4 * t.len() {
            assert(k / 4 < t.len());
        } else {
            assert(k / 4 == t.len());
        }
    }
}

proof fn lemma_root_bound(x: int)
    requires
        x >= 0,
        x * x <= 0xffff_ffff_ffff_ffff,
    ensures
        x < 0x1_0000_0000,
{
    if x >= 0x1_0000_0000 {
        assert(x * x >= 0x1_0000_0000 * x) by (nonlinear_arith)
            requires
                x >= 0x1_0000_0000,
        ;
    }
}

/// The integer square root of `n`.
fn int_sqrt(n: usize) -> (r: usize)
    ensures
        is_isqrt(n as nat, r as nat),
{
    let m = n as u128;
    assert(m <= 0xffff_ffff_ffff_ffff);
    let mut r: u128 = 0;
    while (r + 1) * (r + 1) <= m
        invariant
            m == n,
            m <= 0xffff_ffff_ffff_ffff,
            r * r <= m,
            r < 0x1_0000_0000,
            (r + 1) * (r + 1) <= 0x1_0000_0000 * 0x1_0000_0000,
        decreases 0x1_0000_0000 - r,
    {
        proof {
            lemma_root_bound(r + 1);
        }
        r = r + 1;
        assert((r + 1) * (r + 1) <= 0x1_0000_0000 * 0x1_0000_0000) by (nonlinear_arith)
            requires
                r + 1 <= 0x1_0000_0000,
        ;
    }
    assert(r <= m) by (nonlinear_arith)
        requires
            r * r <= m,
    ;
    r as usize
}

/// `2^e` for a small exponent.
pub(crate) fn pow2_small(e: usize) -> (r: u64)
    requires
        e < 8,
    ensures
        r == pow2(e as nat),
{
    proof {
        lemma2_to64();
    }
    if e == 0 {
        1
    } else if e == 1 {
        2
    } else if e == 2 {
        4
    } else if e == 3 {
        8
    } else if e == 4 {
        16
    } else if e == 5 {
        32
    } else if e == 6 {
        64
    } else {
        128
    }
}

impl OrientationHash {
    /// The rows of the matrix.
    pub open spec fn rows(&self) -> Seq<Seq<bool>> {
        self.hash@.map_values(|r: Vec<bool>| r@)
    }

    /// The bits of the matrix, row after row.
    pub open spec fn bits(&self) -> Seq<bool> {
        self.rows().flatten()
    }

    /// Wraps a bit matrix.
    pub fn new(hash_value: Vec<Vec<bool>>) -> (r: Self)
        ensures
            r.hash@ == hash_value@,
    {
        OrientationHash { hash: hash_value }
    }

    /// The bits of the matrix, row after row, as one vector.
    pub fn flat_bits(&self) -> (r: Vec<bool>)
        ensures
            r@ == self.bits(),
    {
        let mut out: Vec<bool> = Vec::new();
        let mut i: usize = 0;
        while i < self.hash.len()
            invariant
                i <= self.hash@.len(),
                out@ == self.rows().take(i as int).flatten(),
            decreases self.hash@.len() - i,
        {
            let row = &self.hash[i];
            let mut j: usize = 0;
            while j < row.len()
                invariant
                    i < self.hash@.len(),
                    row@ == self.rows()[i as int],
                    j <= row@.len(),
                    out@ == self.rows().take(i as int).flatten() + row@.take(j as int),
                decreases row@.len() - j,
            {
                out.push(row[j]);
                proof {
                    assert(row@.take(j + 1 as int) =~= row@.take(j as int).push(row@[j as int]));
                }
                j += 1;
            }
            proof {
                assert(row@.take(j as int) =~= row@);
                assert(self.rows().take(i + 1 as int) =~= self.rows().take(i as int).push(row@));
                self.rows().take(i as int).lemma_flatten_push(row@);
            }
            i += 1;
        }
        assert(self.rows().take(i as int) =~= self.rows());
        out
    }

    /// The number of bits in the matrix.
    pub fn hash_size(&self) -> (r: usize)
        ensures
            r == self.bits().len(),
    {
        self.flat_bits().len()
    }

    /// The number of positions at which the two matrices' bits differ; fails with
    /// `LengthMismatch` when their bit counts differ.
    pub fn hamming_distance(&self, other: &OrientationHash) -> (r: Result<usize, HashError>)
        ensures
            match r {
                Ok(d) => self.bits().len() == other.bits().len() && d == diff_count(
                    self.bits(),
                    other.bits(),
                ),
                Err(e) => self.bits().len() != other.bits().len() && e == (HashError::LengthMismatch {
                    expected: self.bits().len() as usize,
                    actual: other.bits().len() as usize,
                }),
            },
    {
        let a = self.flat_bits();
        let b = other.flat_bits();
        if a.len() != b.len() {
            return Err(HashError::LengthMismatch { expected: a.len(), actual: b.len() });
        }
        let mut fallacies: usize = 0;
        let mut i: usize = 0;
        while i < a.len()
            invariant
                a@.len() == b@.len(),
                i <= a@.len(),
                fallacies == diff_count(a@.take(i as int), b@.take(i as int)),
            decreases a@.len() - i,
        {
            proof {
                assert(a@.take(i + 1 as int).drop_last() =~= a@.take(i as int));
                assert(b@.take(i + 1 as int).drop_last() =~= b@.take(i as int));
                lemma_diff_count_bound(a@.take(i as int), b@.take(i as int));
            }
            if a[i] != b[i] {
                fallacies += 1;
            }
            i += 1;
        }
        assert(a@.take(i as int) =~= a@);
        assert(b@.take(i as int) =~= b@);
        Ok(fallacies)
    }

    /// Whether the two matrices hold the same bits; `false` when their bit counts differ.
    pub fn equals(&self, other: &OrientationHash) -> (r: bool)
        ensures
            r == (self.bits() == other.bits()),
    {
        match self.hamming_distance(other) {
            Ok(d) => {
                proof {
                    lemma_diff_count_zero(self.bits(), other.bits());
                    lemma_diff_count_bound(self.bits(), other.bits());
                }
                d == 0
            },
            Err(_) => {
                assert(self.bits().len() != other.bits().len());
                false
            },
        }
    }

    /// The lossy digest used to bucket hashes: each set bit at flattened position `i`
    /// adds `2^(i mod 8)`.
    pub fn unique_hash(&self) -> (r: u64)
        requires
            bit_digest(self.bits()) <= u64::MAX,
        ensures
            r == bit_digest(self.bits()),
    {
        let bits = self.flat_bits();
        let mut computed_hash: u64 = 0;
        let mut i: usize = 0;
        while i < bits.len()
            invariant
                bits@ == self.bits(),
                i <= bits@.len(),
                computed_hash == bit_digest(bits@.take(i as int)),
                bit_digest(bits@) <= u64::MAX,
            decreases bits@.len() - i,
        {
            proof {
                assert(bits@.take(i + 1 as int).drop_last() =~= bits@.take(i as int));
                lemma_bit_digest_prefix(bits@, (i + 1) as nat);
            }
            if bits[i] {
                computed_hash = computed_hash + pow2_small(i % 8);
            }
            i += 1;
        }
        assert(bits@.take(i as int) =~= bits@);
        computed_hash
    }

    /// Reads a matrix back from its hex text: each digit gives four bits, and the bits
    /// fill rows as wide as the integer square root of their count, the last row
    /// possibly shorter. Fails with `InvalidEncoding` on a character that is not a hex digit.
    pub fn from_str(hash_str: &str) -> (r: Result<OrientationHash, HashError>)
        ensures
            match r {
                Ok(h) => is_hex(hash_str@) && laid_out(
                    h.rows(),
                    bits_of_hex(hash_str@),
                    isqrt(4 * hash_str@.len()),
                ),
                Err(e) => !is_hex(hash_str@) && e == HashError::InvalidEncoding,
            },
    {
        let len = hash_str.unicode_len();
        let mut bits: Vec<bool> = Vec::new();
        let mut i: usize = 0;
        while i < len
            invariant
                len == hash_str@.len(),
                i <= len,
                is_hex(hash_str@.take(i as int)),
                bits@ == bits_of_hex(hash_str@.take(i as int)),
            decreases len - i,
        {
            let c = hash_str.get_char(i);
            let nib = match hex_char_to_bin(c) {
                Ok(b) => b,
                Err(e) => {
                    assert(hex_value(hash_str@[i as int]).is_none());
                    return Err(e);
                },
            };
            bits.push(nib[0]);
            bits.push(nib[1]);
            bits.push(nib[2]);
            bits.push(nib[3]);
            proof {
                let t = hash_str@.take(i as int);
                assert(hash_str@.take(i + 1 as int) =~= t.push(c));
                lemma_bits_of_hex_push(t, c);
                assert(nib@ =~= seq![nib@[0], nib@[1], nib@[2], nib@[3]]);
                assert forall|k: int| 0 <= k < i + 1 implies #[trigger] hex_value(
                    hash_str@.take(i + 1 as int)[k],
                ).is_some() by {
                    if k < i {
                        assert(hash_str@.take(i + 1 as int)[k] == t[k]);
                    }
                }
            }
            i += 1;
        }
        assert(hash_str@.take(i as int) =~= hash_str@);
        let n = bits.len();
        let width = int_sqrt(n);
        proof {
            lemma_isqrt_unique(n as nat, width as nat, isqrt(n as nat));
        }
        let mut rows: Vec<Vec<bool>> = Vec::new();
        let mut start: usize = 0;
        while start < n
            invariant
                n == bits@.len(),
                start <= n,
                is_isqrt(n as nat, width as nat),
                rows@.map_values(|r: Vec<bool>| r@).flatten() == bits@.take(start as int),
                forall|k: int| 0 <= k < rows@.len() ==> 0 < (#[trigger] rows@[k])@.len() <= width,
                forall|k: int| 0 <= k < rows@.len() - 1 ==> (#[trigger] rows@[k])@.len() == width,
                start < n ==> forall|k: int| 0 <= k < rows@.len() ==> (#[trigger] rows@[k])@.len() == width,
            decreases n - start,
        {
            assert(width > 0) by {
                if width == 0 {
                    assert((width + 1) * (width + 1) == 1) by (nonlinear_arith)
                        requires
                            width == 0,
                    ;
                }
            }
            let end = if n - start > width { start + width } else { n };
            let mut row: Vec<bool> = Vec::new();
            let mut j: usize = start;
            while j < end
                invariant
                    start <= j <= end <= n,
                    n == bits@.len(),
                    row@ =~= bits@.subrange(start as int, j as int),
                decreases end - j,
            {
                row.push(bits[j]);
                j += 1;
            }
            proof {
                let old_rows = rows@.map_values(|r: Vec<bool>| r@);
                assert(rows@.push(row).map_values(|r: Vec<bool>| r@) =~= old_rows.push(row@));
                old_rows.lemma_flatten_push(row@);
                assert(bits@.take(end as int) =~= bits@.take(start as int) + row@);
            }
            rows.push(row);
            start = end;
        }
        assert(bits@.take(start as int) =~= bits@);
        let h = OrientationHash { hash: rows };
        assert(h.rows() == rows@.map_values(|r: Vec<bool>| r@));
        Ok(h)
    }

    /// The hex text of the matrix's bits, row after row.
    pub fn to_str(&self) -> (r: String)
        ensures
            r@ == hex_of(self.bits()),
    {
        bin_to_hex(self.flat_bits())
    }
}

/// Two orientation hashes are equal when they hold the same bits, row after row.
impl PartialEq for OrientationHash {
    fn eq(&self, other: &OrientationHash) -> (r: bool) {
        self.equals(other)
    }
}

impl vstd::std_specs::cmp::PartialEqSpecImpl for OrientationHash {
    open spec fn obeys_eq_spec() -> bool {
        true
    }

    open spec fn eq_spec(&self, other: &OrientationHash) -> bool {
        self.bits() == other.bits()
    }
}

} // verus!
