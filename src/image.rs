use vstd::arithmetic::power2::pow2;
use vstd::prelude::*;
use vstd::string::StrSliceExecFns;
use vstd::string::StringExecFns;

use crate::error::HashError;
use crate::orientation::{
    bit_digest,
    diff_count,
    isqrt,
    laid_out,
    lemma_diff_count_self,
    pow2_small,
    OrientationHash,
};
use crate::utils::{
    bits_of_hex,
    hex_char_value,
    hex_digit,
    hex_of,
    hex_value,
    is_hex,
    lemma_hex_digit_value,
    lemma_hex_round_trip,
    push_hex_digit,
};

verus! {

/// Whether every pair of one bit sequence from `a` and one from `b` has equal length.
pub open spec fn all_comparable(a: Seq<Seq<bool>>, b: Seq<Seq<bool>>) -> bool {
    forall|i: int, j: int|
        0 <= i < a.len() && 0 <= j < b.len() ==> (#[trigger] a[i]).len() == (#[trigger] b[j]).len()
}

/// Whether `d` is the least Hamming distance over all pairs from `a` and `b`.
pub open spec fn is_min_distance(a: Seq<Seq<bool>>, b: Seq<Seq<bool>>, d: nat) -> bool {
    &&& exists|i: int, j: int| 0 <= i < a.len() && 0 <= j < b.len() && d == diff_count(a[i], b[j])
    &&& forall|i: int, j: int|
        0 <= i < a.len() && 0 <= j < b.len() ==> d <= diff_count(#[trigger] a[i], #[trigger] b[j])
}

/// Whether some bit sequence of `a` equals some bit sequence of `b`.
pub open spec fn shares_orientation(a: Seq<Seq<bool>>, b: Seq<Seq<bool>>) -> bool {
    exists|i: int, j: int| 0 <= i < a.len() && 0 <= j < b.len() && a[i] == b[j]
}

/// The digest of an image hash: orientation `i`'s digest weighted by `2^(i mod 4)`, summed.
pub open spec fn image_digest(hs: Seq<Seq<bool>>) -> nat
    decreases hs.len(),
{
    if hs.len() == 0 {
        0
    } else {
        image_digest(hs.drop_last()) + bit_digest(hs.last()) * pow2(((hs.len() - 1) % 4) as nat)
    }
}

/// The version of the text format that this library writes and reads.
pub const VERSION: u16 = 1;

/// A six-character header field: `0x` and four lowercase hex digits of `v`.
pub open spec fn field(v: nat) -> Seq<char> {
    seq![
        '0',
        'x',
        hex_digit((v / 4096) % 16),
        hex_digit((v / 256) % 16),
        hex_digit((v / 16) % 16),
        hex_digit(v % 16),
    ]
}

/// The number that a run of hex digits spells, most significant first.
pub open spec fn hex_number(d: Seq<char>) -> nat
    decreases d.len(),
{
    if d.len() == 0 {
        0
    } else {
        16 * hex_number(d.drop_last()) + hex_value(d.last()).unwrap()
    }
}

/// The value of a header field, or `None` when it is not `0x` and four hex digits.
pub open spec fn field_value(f: Seq<char>) -> Option<nat> {
    if f.len() == 6 && f[0] == '0' && f[1] == 'x' && is_hex(f.skip(2)) {
        Some(hex_number(f.skip(2)))
    } else {
        None
    }
}

/// The text of an image hash whose orientations hold the bit sequences `hs`: the
/// version field, then (when there is an orientation) a field with the length of the
/// first orientation's hex text, then every orientation's hex text in order.
pub open spec fn encode_image(hs: Seq<Seq<bool>>) -> Seq<char> {
    if hs.len() == 0 {
        field(VERSION as nat)
    } else {
        field(VERSION as nat) + field(hex_of(hs[0]).len()) + hs.map_values(
            |b: Seq<bool>| hex_of(b),
        ).flatten()
    }
}

/// The orientation texts of an image hash's text, or `None` when its header is
/// malformed, its version is not supported, or its payload is not a whole number
/// of pieces of the announced length.
pub open spec fn split_payload(s: Seq<char>) -> Option<Seq<Seq<char>>> {
    if s.len() < 6 || field_value(s.take(6)) != Some(VERSION as nat) {
        None
    } else if s.len() == 6 {
        Some(Seq::empty())
    } else if s.len() < 12 {
        None
    } else {
        match field_value(s.subrange(6, 12)) {
            None => None,
            Some(l) => {
                let p = s.skip(12);
                if p.len() == 0 {
                    Some(Seq::empty())
                } else if l == 0 || p.len() % l != 0 {
                    None
                } else {
                    Some(Seq::new(p.len() / l, |k: int| p.subrange(k * l, (k + 1) * l)))
                }
            },
        }
    }
}

/// Whether `o` is what an orientation's hex text `text` decodes to.
pub open spec fn orientation_decoded(text: Seq<char>, o: OrientationHash) -> bool {
    is_hex(text) && laid_out(o.rows(), bits_of_hex(text), isqrt(4 * text.len()))
}

/// Whether `s` is a well-formed image hash text.
pub open spec fn decodable(s: Seq<char>) -> bool {
    &&& split_payload(s) is Some
    &&& forall|k: int|
        0 <= k < split_payload(s).unwrap().len() ==> is_hex(
            #[trigger] split_payload(s).unwrap()[k],
        )
}

/// Whether `hs` are the orientations that the text `s` decodes to.
pub open spec fn decodes_to(s: Seq<char>, hs: Seq<OrientationHash>) -> bool {
    &&& split_payload(s) is Some
    &&& hs.len() == split_payload(s).unwrap().len()
    &&& forall|k: int|
        0 <= k < hs.len() ==> orientation_decoded(
            #[trigger] split_payload(s).unwrap()[k],
            hs[k],
        )
}

/// Appends a header field for `v`.
fn push_field(out: &mut String, v: usize)
    requires
        v < 0x10000,
    ensures
        final(out)@ == old(out)@ + field(v as nat),
{
    let prefix = "0x";
    proof {
        reveal_strlit("0x");
    }
    out.append(prefix);
    push_hex_digit(out, (v / 4096) % 16);
    push_hex_digit(out, (v / 256) % 16);
    push_hex_digit(out, (v / 16) % 16);
    push_hex_digit(out, v % 16);
    assert(final(out)@ =~= old(out)@ + field(v as nat));
}

/// Reads the header field that starts at character `at`.
fn parse_field(s: &str, at: usize) -> (r: Option<usize>)
    requires
        at <= 6,
        at + 6 <= s@.len(),
    ensures
        match field_value(s@.subrange(at as int, at + 6)) {
            Some(v) => v < 0x10000 && r == Some(v as usize),
            None => r.is_none(),
        },
{
    let ghost f = s@.subrange(at as int, at + 6);
    let c0 = s.get_char(at);
    let c1 = s.get_char(at + 1);
    let d0 = hex_char_value(s.get_char(at + 2));
    let d1 = hex_char_value(s.get_char(at + 3));
    let d2 = hex_char_value(s.get_char(at + 4));
    let d3 = hex_char_value(s.get_char(at + 5));
    proof {
        reveal_with_fuel(hex_number, 5);
        let d = f.skip(2);
        assert(d.drop_last().drop_last().drop_last().drop_last() =~= Seq::<char>::empty());
        assert(d[0] == s@[at + 2]);
        assert(d[1] == s@[at + 3]);
        assert(d[2] == s@[at + 4]);
        assert(d[3] == s@[at + 5]);
    }
    if c0 != '0' || c1 != 'x' {
        return None;
    }
    match (d0, d1, d2, d3) {
        (Some(a), Some(b), Some(c), Some(d)) => {
            proof {
                let t = f.skip(2);
                assert forall|i: int| 0 <= i < t.len() implies (#[trigger] hex_value(
                    t[i],
                )).is_some() by {
                    assert(t[i] == s@[at + 2 + i]);
                }
            }
            Some(4096 * (a as usize) + 256 * (b as usize) + 16 * (c as usize) + (d as usize))
        },
        _ => {
            proof {
                let t = f.skip(2);
                if d0.is_none() {
                    assert(hex_value(t[0]).is_none());
                } else if d1.is_none() {
                    assert(hex_value(t[1]).is_none());
                } else if d2.is_none() {
                    assert(hex_value(t[2]).is_none());
                } else {
                    assert(hex_value(t[3]).is_none());
                }
            }
            None
        },
    }
}

/// All orientation variants of one image's fingerprint, in insertion order.
#[derive(Debug)]
pub struct ImageHash {
    pub hashes: Vec<OrientationHash>,
}

proof fn lemma_image_digest_prefix(hs: Seq<Seq<bool>>, k: nat)
    requires
        k <= hs.len(),
    ensures
        image_digest(hs.take(k as int)) <= image_digest(hs),
    decreases hs.len() - k,
{
    if k < hs.len() {
        lemma_image_digest_prefix(hs, k + 1);
        assert(hs.take(k + 1 as int).drop_last() =~= hs.take(k as int));
    } else {
        assert(hs.take(k as int) =~= hs);
    }
}

proof fn lemma_field_value(v: nat)
    requires
        v < 0x10000,
    ensures
        field_value(field(v)) == Some(v),
{
    let f = field(v);
    let d = f.skip(2);
    lemma_hex_digit_value((v / 4096) % 16);
    lemma_hex_digit_value((v / 256) % 16);
    lemma_hex_digit_value((v / 16) % 16);
    lemma_hex_digit_value(v % 16);
    assert forall|i: int| 0 <= i < d.len() implies (#[trigger] hex_value(d[i])).is_some() by {}
    reveal_with_fuel(hex_number, 5);
    assert(d.drop_last().drop_last().drop_last().drop_last() =~= Seq::<char>::empty());
    assert(d.drop_last().drop_last().drop_last().last() == d[0]);
    assert(d.drop_last().drop_last().last() == d[1]);
    assert(d.drop_last().last() == d[2]);
    assert(hex_number(d) == 4096 * ((v / 4096) % 16) + 256 * ((v / 256) % 16) + 16 * ((v / 16) % 16)
        + v % 16);
}

proof fn lemma_flatten_uniform(parts: Seq<Seq<char>>, l: nat)
    requires
        forall|k: int| 0 <= k < parts.len() ==> (#[trigger] parts[k]).len() == l,
    ensures
        parts.flatten().len() == parts.len() * l,
        forall|k: int|
            0 <= k < parts.len() ==> parts.flatten().subrange(k * l, (k + 1) * l) == #[trigger] parts[k],
    decreases parts.len(),
{
    if parts.len() > 0 {
        let rest = parts.drop_first();
        lemma_flatten_uniform(rest, l);
        let f = parts.flatten();
        assert(f == parts[0] + rest.flatten());
        assert(f.len() == parts.len() * l) by (nonlinear_arith)
            requires
                f.len() == l + rest.len() * l,
                rest.len() == parts.len() - 1,
        ;
        assert forall|k: int| 0 <= k < parts.len() implies f.subrange(k * l, (k + 1) * l)
            == #[trigger] parts[k] by {
            if k == 0 {
                assert(f.subrange(0, l as int) =~= parts[0]);
            } else {
                assert(k * l == l + (k - 1) * l) by (nonlinear_arith);
                assert((k + 1) * l == l + k * l) by (nonlinear_arith);
                assert(k * l + l <= f.len()) by (nonlinear_arith)
                    requires
                        k < parts.len(),
                        f.len() == parts.len() * l,
                ;
                assert(rest[k - 1] == parts[k]);
                assert(f.subrange(k * l, (k + 1) * l) =~= rest.flatten().subrange(
                    (k - 1) * l,
                    k * l,
                ));
            }
        }
    }
}

impl ImageHash {
    /// The bits of each orientation, in insertion order.
    pub open spec fn bit_seqs(&self) -> Seq<Seq<bool>> {
        self.hashes@.map_values(|o: OrientationHash| o.bits())
    }

    /// Every orientation has as many bits as the first.
    pub open spec fn wf(&self) -> bool {
        forall|i: int|
            0 <= i < self.hashes@.len() ==> (#[trigger] self.bit_seqs()[i]).len()
                == self.bit_seqs()[0].len()
    }

    /// An image hash with no orientations yet.
    pub fn new() -> (r: Self)
        ensures
            r.hashes@.len() == 0,
            r.wf(),
    {
        ImageHash { hashes: Vec::new() }
    }

    /// Appends an orientation. Fails with `LengthMismatch`, leaving the hash as it was,
    /// when the hash already holds orientations whose bit count differs from `hash`'s.
    pub fn add_hash(&mut self, hash: OrientationHash) -> (r: Result<(), HashError>)
        ensures
            old(self).hashes@.len() > 0 && old(self).bit_seqs()[0].len() != hash.bits().len()
                ==> r == Err::<(), HashError>(
                HashError::LengthMismatch {
                    expected: old(self).bit_seqs()[0].len() as usize,
                    actual: hash.bits().len() as usize,
                },
            ) && final(self).hashes@ == old(self).hashes@,
            !(old(self).hashes@.len() > 0 && old(self).bit_seqs()[0].len() != hash.bits().len())
                ==> r == Ok::<(), HashError>(()) && final(self).hashes@ == old(self).hashes@.push(
                hash,
            ),
            old(self).wf() ==> final(self).wf(),
    {
        if self.hashes.len() > 0 {
            let expected = self.hashes[0].hash_size();
            let actual = hash.hash_size();
            if expected != actual {
                return Err(HashError::LengthMismatch { expected, actual });
            }
        }
        self.hashes.push(hash);
        proof {
            assert(self.bit_seqs() =~= old(self).bit_seqs().push(hash.bits()));
        }
        Ok(())
    }

    /// Whether some orientation of `self` holds the same bits as some orientation of
    /// `other`; `false` when either has none.
    pub fn set_equals(&self, other: &ImageHash) -> (r: bool)
        ensures
            r == shares_orientation(self.bit_seqs(), other.bit_seqs()),
    {
        let mut i: usize = 0;
        while i < self.hashes.len()
            invariant
                i <= self.hashes@.len(),
                forall|p: int, q: int|
                    0 <= p < i && 0 <= q < other.hashes@.len() ==> self.bit_seqs()[p]
                        != other.bit_seqs()[q],
            decreases self.hashes@.len() - i,
        {
            let mut j: usize = 0;
            while j < other.hashes.len()
                invariant
                    i < self.hashes@.len(),
                    j <= other.hashes@.len(),
                    forall|p: int, q: int|
                        0 <= p < i && 0 <= q < other.hashes@.len() ==> self.bit_seqs()[p]
                            != other.bit_seqs()[q],
                    forall|q: int| 0 <= q < j ==> self.bit_seqs()[i as int] != other.bit_seqs()[q],
                decreases other.hashes@.len() - j,
            {
                if self.hashes[i].equals(&other.hashes[j]) {
                    assert(self.bit_seqs()[i as int] == other.bit_seqs()[j as int]);
                    return true;
                }
                j += 1;
            }
            i += 1;
        }
        false
    }

    /// The least Hamming distance over all pairs of one orientation of `self` and one of
    /// `other`. Fails with `EmptyOperand` when either has no orientations, else with
    /// `LengthMismatch` when some such pair differs in bit count.
    pub fn min_distance(&self, other: &ImageHash) -> (r: Result<usize, HashError>)
        ensures
            match r {
                Ok(d) => self.hashes@.len() > 0 && other.hashes@.len() > 0 && all_comparable(
                    self.bit_seqs(),
                    other.bit_seqs(),
                ) && is_min_distance(self.bit_seqs(), other.bit_seqs(), d as nat),
                Err(HashError::EmptyOperand) => self.hashes@.len() == 0 || other.hashes@.len()
                    == 0,
                Err(e) => self.hashes@.len() > 0 && other.hashes@.len() > 0 && exists|
                    i: int,
                    j: int,
                |
                    0 <= i < self.hashes@.len() && 0 <= j < other.hashes@.len()
                        && self.bit_seqs()[i].len() != other.bit_seqs()[j].len() && e == (
                    HashError::LengthMismatch {
                        expected: self.bit_seqs()[i].len() as usize,
                        actual: other.bit_seqs()[j].len() as usize,
                    }),
            },
    {
        if self.hashes.len() == 0 || other.hashes.len() == 0 {
            return Err(HashError::EmptyOperand);
        }
        let ghost a = self.bit_seqs();
        let ghost b = other.bit_seqs();
        let mut best: usize = 0;
        let mut i: usize = 0;
        while i < self.hashes.len()
            invariant
                a == self.bit_seqs(),
                b == other.bit_seqs(),
                0 < self.hashes@.len(),
                0 < other.hashes@.len(),
                i <= self.hashes@.len(),
                forall|p: int, q: int|
                    0 <= p < i && 0 <= q < b.len() ==> (#[trigger] a[p]).len() == (#[trigger] b[q]).len(),
                i > 0 ==> exists|p: int, q: int|
                    0 <= p < i && 0 <= q < b.len() && best == diff_count(a[p], b[q]),
                forall|p: int, q: int|
                    0 <= p < i && 0 <= q < b.len() ==> best <= diff_count(#[trigger] a[p], #[trigger] b[q]),
            decreases self.hashes@.len() - i,
        {
            let mut j: usize = 0;
            while j < other.hashes.len()
                invariant
                    a == self.bit_seqs(),
                    b == other.bit_seqs(),
                    0 < other.hashes@.len(),
                    i < self.hashes@.len(),
                    j <= other.hashes@.len(),
                    forall|p: int, q: int|
                        0 <= p < i && 0 <= q < b.len() ==> (#[trigger] a[p]).len() == (#[trigger] b[q]).len(),
                    forall|q: int| 0 <= q < j ==> a[i as int].len() == (#[trigger] b[q]).len(),
                    i > 0 || j > 0 ==> exists|p: int, q: int|
                        (0 <= p < i && 0 <= q < b.len() || p == i && 0 <= q < j) && best
                            == diff_count(a[p], b[q]),
                    forall|p: int, q: int|
                        0 <= p < i && 0 <= q < b.len() ==> best <= diff_count(#[trigger] a[p], #[trigger] b[q]),
                    forall|q: int| 0 <= q < j ==> best <= diff_count(a[i as int], #[trigger] b[q]),
                decreases other.hashes@.len() - j,
            {
                assert(a[i as int] == self.hashes@[i as int].bits());
                assert(b[j as int] == other.hashes@[j as int].bits());
                match self.hashes[i].hamming_distance(&other.hashes[j]) {
                    Ok(d) => {
                        if (i == 0 && j == 0) || d < best {
                            best = d;
                            assert(best == diff_count(a[i as int], b[j as int]));
                        }
                    },
                    Err(e) => {
                        assert(a[i as int].len() != b[j as int].len());
                        return Err(e);
                    },
                }
                j += 1;
            }
            i += 1;
        }
        Ok(best)
    }

    /// The text of the hash: the version field, then (when there is an orientation)
    /// a field with the length of the first orientation's hex text, then every
    /// orientation's hex text in order.
    pub fn to_str(&self) -> (r: String)
        requires
            self.hashes@.len() > 0 ==> hex_of(self.bit_seqs()[0]).len() < 0x10000,
        ensures
            r@ == encode_image(self.bit_seqs()),
    {
        let ghost hs = self.bit_seqs();
        let ghost parts = hs.map_values(|b: Seq<bool>| hex_of(b));
        let mut hash = String::new();
        push_field(&mut hash, VERSION as usize);
        let ghost head = hash@;
        let mut i: usize = 0;
        while i < self.hashes.len()
            invariant
                hs == self.bit_seqs(),
                parts == hs.map_values(|b: Seq<bool>| hex_of(b)),
                head == field(VERSION as nat),
                hs.len() > 0 ==> hex_of(hs[0]).len() < 0x10000,
                i <= hs.len(),
                i == 0 ==> hash@ == head,
                i > 0 ==> hash@ == head + field(hex_of(hs[0]).len()) + parts.take(i as int).flatten(),
            decreases hs.len() - i,
        {
            let part = self.hashes[i].to_str();
            if i == 0 {
                let n = part.as_str().unicode_len();
                push_field(&mut hash, n);
                assert(parts.take(0).flatten() =~= Seq::<char>::empty());
            }
            hash.append(part.as_str());
            proof {
                assert(parts.take(i + 1 as int) =~= parts.take(i as int).push(part@));
                parts.take(i as int).lemma_flatten_push(part@);
                assert(hash@ =~= head + field(hex_of(hs[0]).len()) + parts.take(i + 1 as int).flatten());
            }
            i += 1;
        }
        assert(parts.take(i as int) =~= parts);
        hash
    }

    /// Reads a hash back from its text. Fails with `InvalidEncoding` when the header
    /// is malformed, the version is not supported, the payload is not a whole number
    /// of pieces of the announced length, or a piece holds a character that is not a
    /// hex digit.
    pub fn from_str(hash_str: &str) -> (r: Result<ImageHash, HashError>)
        ensures
            match r {
                Ok(h) => decodes_to(hash_str@, h.hashes@),
                Err(e) => !decodable(hash_str@) && e == HashError::InvalidEncoding,
            },
    {
        let len = hash_str.unicode_len();
        if len < 6 {
            return Err(HashError::InvalidEncoding);
        }
        assert(hash_str@.subrange(0, 6) =~= hash_str@.take(6));
        match parse_field(hash_str, 0) {
            Some(v) => {
                if v != VERSION as usize {
                    return Err(HashError::InvalidEncoding);
                }
            },
            None => {
                return Err(HashError::InvalidEncoding);
            },
        }
        if len == 6 {
            return Ok(ImageHash { hashes: Vec::new() });
        }
        if len < 12 {
            return Err(HashError::InvalidEncoding);
        }
        let l = match parse_field(hash_str, 6) {
            Some(l) => l,
            None => {
                return Err(HashError::InvalidEncoding);
            },
        };
        let rest = len - 12;
        if rest == 0 {
            return Ok(ImageHash { hashes: Vec::new() });
        }
        if l == 0 || rest % l != 0 {
            return Err(HashError::InvalidEncoding);
        }
        let count = rest / l;
        let ghost p = hash_str@.skip(12);
        let ghost parts = split_payload(hash_str@).unwrap();
        assert(parts == Seq::new(p.len() / (l as nat), |k: int| p.subrange(k * l, (k + 1) * l)));
        proof {
            vstd::arithmetic::div_mod::lemma_fundamental_div_mod(rest as int, l as int);
        }
        let mut hashes: Vec<OrientationHash> = Vec::new();
        let mut k: usize = 0;
        let mut start: usize = 12;
        while k < count
            invariant
                len == hash_str@.len(),
                rest == len - 12,
                p == hash_str@.skip(12),
                l > 0,
                count == rest / l,
                rest == l * count,
                parts == split_payload(hash_str@).unwrap(),
                parts.len() == count,
                forall|q: int| 0 <= q < count ==> #[trigger] parts[q] == p.subrange(q * l, (q + 1) * l),
                k <= count,
                start == 12 + k * l,
                hashes@.len() == k,
                forall|q: int| 0 <= q < k ==> orientation_decoded(#[trigger] parts[q], hashes@[q]),
            decreases count - k,
        {
            assert(k * l + l <= rest) by (nonlinear_arith)
                requires
                    k < count,
                    rest == l * count,
            ;
            assert((k + 1) * l == k * l + l) by (nonlinear_arith);
            let piece = hash_str.substring_char(start, start + l);
            assert(piece@ =~= parts[k as int]);
            match OrientationHash::from_str(piece) {
                Ok(o) => {
                    hashes.push(o);
                },
                Err(e) => {
                    return Err(e);
                },
            }
            k += 1;
            start = start + l;
        }
        Ok(ImageHash { hashes })
    }

    /// The lossy digest used to bucket image hashes: the digest of orientation `i`
    /// weighted by `2^(i mod 4)`, summed.
    pub fn unique_hash(&self) -> (r: u64)
        requires
            image_digest(self.bit_seqs()) <= u64::MAX,
        ensures
            r == image_digest(self.bit_seqs()),
    {
        let ghost hs = self.bit_seqs();
        let mut computed_hash: u64 = 0;
        let mut i: usize = 0;
        while i < self.hashes.len()
            invariant
                hs == self.bit_seqs(),
                i <= hs.len(),
                computed_hash == image_digest(hs.take(i as int)),
                image_digest(hs) <= u64::MAX,
            decreases hs.len() - i,
        {
            proof {
                assert(hs.take(i + 1 as int).drop_last() =~= hs.take(i as int));
                lemma_image_digest_prefix(hs, (i + 1) as nat);
                vstd::arithmetic::power2::lemma_pow2_pos((i % 4) as nat);
                assert(bit_digest(hs[i as int]) <= bit_digest(hs[i as int]) * pow2((i % 4) as nat))
                    by (nonlinear_arith)
                    requires
                        pow2((i % 4) as nat) > 0,
                ;
            }
            let value = self.hashes[i].unique_hash();
            let weight = pow2_small(i % 4);
            proof {
                assert(value * weight == bit_digest(hs[i as int]) * pow2((i % 4) as nat));
            }
            computed_hash = computed_hash + value * weight;
            i += 1;
        }
        assert(hs.take(i as int) =~= hs);
        computed_hash
    }
}

/// A non-empty image hash whose orientations share one bit count is at distance zero
/// from itself: every pair is comparable, and zero is the least distance.
pub proof fn lemma_min_distance_self(h: ImageHash)
    requires
        h.wf(),
        h.hashes@.len() > 0,
    ensures
        all_comparable(h.bit_seqs(), h.bit_seqs()),
        forall|d: nat| is_min_distance(h.bit_seqs(), h.bit_seqs(), d) <==> d == 0,
{
    let a = h.bit_seqs();
    assert(a[0] == a[0]);
    lemma_diff_count_self(a[0]);
    assert forall|d: nat| is_min_distance(a, a, d) <==> d == 0 by {
        if d == 0 {
            assert forall|i: int, j: int| 0 <= i < a.len() && 0 <= j < a.len() implies d <= diff_count(
                #[trigger] a[i],
                #[trigger] a[j],
            ) by {}
        }
        if is_min_distance(a, a, d) {
            assert(d <= diff_count(a[0], a[0]));
        }
    }
}

/// A non-empty image hash shares an orientation with itself.
pub proof fn lemma_set_equals_self(h: ImageHash)
    requires
        h.hashes@.len() > 0,
    ensures
        shares_orientation(h.bit_seqs(), h.bit_seqs()),
{
    let a = h.bit_seqs();
    assert(a[0] == a[0]);
}

/// Writing an image hash as text and reading it back succeeds and gives orientations
/// with the same bits in the same order, so the two hashes share an orientation and
/// every orientation has the same hex text as before. This holds of a non-empty hash
/// whose orientations share one non-zero bit count that is a multiple of four and
/// whose hex text fits the length field.
pub proof fn lemma_round_trip(h: ImageHash)
    requires
        h.wf(),
        h.hashes@.len() > 0,
        h.bit_seqs()[0].len() > 0,
        h.bit_seqs()[0].len() % 4 == 0,
        hex_of(h.bit_seqs()[0]).len() < 0x10000,
    ensures
        decodable(encode_image(h.bit_seqs())),
        forall|d: Seq<OrientationHash>|
            decodes_to(encode_image(h.bit_seqs()), d) ==> {
                &&& d.len() == h.hashes@.len()
                &&& forall|k: int|
                    0 <= k < d.len() ==> (#[trigger] d[k]).bits() == h.bit_seqs()[k]
                        && hex_of(d[k].bits()) == hex_of(h.bit_seqs()[k])
                &&& shares_orientation(d.map_values(|o: OrientationHash| o.bits()), h.bit_seqs())
            },
{
    let hs = h.bit_seqs();
    let n = hs.len();
    let l = hex_of(hs[0]).len();
    let parts = hs.map_values(|b: Seq<bool>| hex_of(b));
    let s = encode_image(hs);
    assert forall|k: int| 0 <= k < n implies #[trigger] parts[k].len() == l && is_hex(parts[k])
        && bits_of_hex(parts[k]) == hs[k] by {
        assert(hs[k].len() == hs[0].len());
        lemma_hex_round_trip(hs[k]);
        lemma_hex_round_trip(hs[0]);
    }
    lemma_hex_round_trip(hs[0]);
    assert(l > 0);
    lemma_flatten_uniform(parts, l);
    lemma_field_value(VERSION as nat);
    lemma_field_value(l);
    let p = parts.flatten();
    assert(s.take(6) =~= field(VERSION as nat));
    assert(s.subrange(6, 12) =~= field(l));
    assert(s.skip(12) =~= p);
    assert(p.len() == n * l);
    assert(p.len() >= l) by (nonlinear_arith)
        requires
            p.len() == n * l,
            n > 0,
    ;
    assert(p.len() % l == 0 && p.len() / l == n) by (nonlinear_arith)
        requires
            p.len() == n * l,
            l > 0,
    ;
    let split = split_payload(s).unwrap();
    assert(split =~= parts);
    assert forall|d: Seq<OrientationHash>| decodes_to(s, d) implies {
        &&& d.len() == h.hashes@.len()
        &&& forall|k: int|
            0 <= k < d.len() ==> (#[trigger] d[k]).bits() == hs[k] && hex_of(d[k].bits()) == hex_of(
                hs[k],
            )
        &&& shares_orientation(d.map_values(|o: OrientationHash| o.bits()), hs)
    } by {
        assert forall|k: int| 0 <= k < d.len() implies (#[trigger] d[k]).bits() == hs[k] && hex_of(
            d[k].bits(),
        ) == hex_of(hs[k]) by {
            assert(orientation_decoded(split[k], d[k]));
            assert(parts[k].len() == l);
        }
        let db = d.map_values(|o: OrientationHash| o.bits());
        assert(db[0] == hs[0]);
    }
}

} // verus!
