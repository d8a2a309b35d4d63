use vstd::prelude::*;
use vstd::string::StrSliceExecFns;
use vstd::string::StringExecFns;

use crate::error::HashError;

verus! {

/// The non-negative integer that a bit sequence spells, most significant bit first.
pub open spec fn bits_value(s: Seq<bool>) -> nat
    decreases s.len(),
{
    if s.len() == 0 {
        0
    } else {
        2 * bits_value(s.drop_last()) + if s.last() { 1nat } else { 0nat }
    }
}

/// The lowercase hex digits, indexed by their value.
pub open spec fn hex_digits() -> Seq<char> {
    seq!['0', '1', '2', '3', '4', '5', '6', '7', '8', '9', 'a', 'b', 'c', 'd', 'e', 'f']
}

/// The lowercase hex digit of a value below 16.
pub open spec fn hex_digit(v: nat) -> char {
    hex_digits()[v as int]
}

/// The value of a hex digit of either case, or `None` for any other character.
pub open spec fn hex_value(c: char) -> Option<nat> {
    let n = c as u32;
    if 48 <= n <= 57 {
        Some((n - 48) as nat)
    } else if 97 <= n <= 102 {
        Some((n - 87) as nat)
    } else if 65 <= n <= 70 {
        Some((n - 55) as nat)
    } else {
        None
    }
}

/// The four bits of a value below 16, most significant first.
pub open spec fn nibble(v: nat) -> Seq<bool> {
    seq![(v / 8) % 2 == 1, (v / 4) % 2 == 1, (v / 2) % 2 == 1, v % 2 == 1]
}

/// How many pieces of width `n` cover `len` items, the last one possibly short.
pub open spec fn num_chunks(len: nat, n: nat) -> nat {
    if n == 0 {
        0
    } else {
        ((len + n - 1) as nat) / n
    }
}

/// The `i`-th piece of width `n` of `s`.
pub open spec fn chunk_at<A>(s: Seq<A>, n: nat, i: int) -> Seq<A> {
    let end = if (i + 1) * n <= s.len() { (i + 1) * n } else { s.len() as int };
    s.subrange(i * n, end)
}

/// `s` cut into consecutive pieces of width `n`; only the last may be shorter.
pub open spec fn chunks<A>(s: Seq<A>, n: nat) -> Seq<Seq<A>> {
    Seq::new(num_chunks(s.len(), n), |i: int| chunk_at(s, n, i))
}

/// The hex text of a bit sequence: one digit for each group of four bits.
pub open spec fn hex_of(bits: Seq<bool>) -> Seq<char> {
    chunks(bits, 4).map_values(|g: Seq<bool>| hex_digit(bits_value(g)))
}

/// Whether every character of `s` is a hex digit.
pub open spec fn is_hex(s: Seq<char>) -> bool {
    forall|i: int| 0 <= i < s.len() ==> (#[trigger] hex_value(s[i])).is_some()
}

/// The bits that a hex text stands for, four for each character.
pub open spec fn bits_of_hex(s: Seq<char>) -> Seq<bool> {
    Seq::new(4 * s.len(), |k: int| nibble(hex_value(s[k / 4]).unwrap())[k % 4])
}

pub(crate) proof fn lemma_hex_digit_value(v: nat)
    requires
        v < 16,
    ensures
        hex_value(hex_digit(v)) == Some(v),
{
}

proof fn lemma_bits_value_prefix(s: Seq<bool>, k: nat)
    requires
        k <= s.len(),
    ensures
        bits_value(s.take(k as int)) <= bits_value(s),
    decreases s.len() - k,
{
    if k < s.len() {
        lemma_bits_value_prefix(s, k + 1);
        assert(s.take(k + 1 as int).drop_last() =~= s.take(k as int));
    } else {
        assert(s.take(k as int) =~= s);
    }
}

proof fn lemma_bits_value_short(s: Seq<bool>)
    requires
        s.len() <= 4,
    ensures
        bits_value(s) < 16,
{
    reveal_with_fuel(bits_value, 5);
}

proof fn lemma_nibble_of_value(g: Seq<bool>)
    requires
        g.len() == 4,
    ensures
        nibble(bits_value(g)) =~= g,
{
    reveal_with_fuel(bits_value, 5);
    let g1 = g.drop_last();
    let g2 = g1.drop_last();
    let g3 = g2.drop_last();
    assert(g3.drop_last().len() == 0);
    assert(g3.last() == g[0]);
    assert(g2.last() == g[1]);
    assert(g1.last() == g[2]);
    let v = bits_value(g);
    assert(v == 8 * (if g[0] { 1int } else { 0 }) + 4 * (if g[1] { 1int } else { 0 }) + 2 * (if g[2] {
        1int
    } else {
        0
    }) + (if g[3] { 1int } else { 0 }));
}

/// Every character of the hex text of a bit sequence is a hex digit.
pub proof fn lemma_hex_of_is_hex(b: Seq<bool>)
    ensures
        is_hex(hex_of(b)),
{
    let h = hex_of(b);
    assert forall|i: int| 0 <= i < h.len() implies (#[trigger] hex_value(h[i])).is_some() by {
        let g = chunk_at(b, 4, i);
        lemma_bits_value_short(g);
        lemma_hex_digit_value(bits_value(g));
    }
}

/// Reading back the hex text of a bit sequence whose length is a multiple of four
/// gives the same bits.
pub proof fn lemma_hex_round_trip(b: Seq<bool>)
    requires
        b.len() % 4 == 0,
    ensures
        is_hex(hex_of(b)),
        hex_of(b).len() == b.len() / 4,
        bits_of_hex(hex_of(b)) == b,
{
    lemma_hex_of_is_hex(b);
    let h = hex_of(b);
    let r = bits_of_hex(h);
    assert forall|k: int| 0 <= k < b.len() implies r[k] == b[k] by {
        let i = k / 4;
        let g = chunk_at(b, 4, i);
        assert(g =~= b.subrange(4 * i, 4 * i + 4));
        lemma_bits_value_short(g);
        lemma_hex_digit_value(bits_value(g));
        lemma_nibble_of_value(g);
        assert(g[k % 4] == b[k]);
    }
    assert(r =~= b);
}

/// The integer that `arr` spells, most significant bit first.
pub fn bin_to_dec(arr: &[bool]) -> (r: i32)
    requires
        bits_value(arr@) <= i32::MAX,
    ensures
        r == bits_value(arr@),
{
    let mut solution: i32 = 0;
    let mut i: usize = 0;
    while i < arr.len()
        invariant
            i <= arr.len(),
            solution == bits_value(arr@.take(i as int)),
            bits_value(arr@) <= i32::MAX,
        decreases arr.len() - i,
    {
        proof {
            assert(arr@.take(i + 1).drop_last() =~= arr@.take(i as int));
            lemma_bits_value_prefix(arr@, (i + 1) as nat);
        }
        solution = 2 * solution + if arr[i] { 1i32 } else { 0i32 };
        i += 1;
    }
    assert(arr@.take(i as int) =~= arr@);
    solution
}

/// Appends the lowercase hex digit of `v`.
pub(crate) fn push_hex_digit(out: &mut String, v: usize)
    requires
        v < 16,
    ensures
        final(out)@ == old(out)@.push(hex_digit(v as nat)),
{
    let digits = "0123456789abcdef";
    proof {
        reveal_strlit("0123456789abcdef");
        assert(digits@ =~= hex_digits());
    }
    let d = digits.substring_char(v, v + 1);
    assert(d@ =~= seq![hex_digit(v as nat)]);
    out.append(d);
}

/// The hex text of `arr`: each group of four bits, most significant first, becomes one
/// lowercase digit; a shorter last group is read as the number it spells.
pub fn bin_to_hex(arr: Vec<bool>) -> (r: String)
    ensures
        r@ == hex_of(arr@),
{
    let mut solution = String::new();
    let n = arr.len();
    let count: usize = n / 4 + if n % 4 == 0 { 0 } else { 1 };
    assert(count == num_chunks(n as nat, 4));
    let mut i: usize = 0;
    while i < count
        invariant
            n == arr@.len(),
            count == num_chunks(n as nat, 4),
            i <= count,
            solution@ =~= hex_of(arr@).take(i as int),
        decreases count - i,
    {
        let start = 4 * i;
        let end = if n - start >= 4 { start + 4 } else { n };
        let mut group: Vec<bool> = Vec::new();
        let mut j: usize = start;
        while j < end
            invariant
                start <= j <= end <= n,
                n == arr@.len(),
                group@ =~= arr@.subrange(start as int, j as int),
            decreases end - j,
        {
            group.push(arr[j]);
            j += 1;
        }
        assert(group@ =~= chunk_at(arr@, 4, i as int));
        proof {
            lemma_bits_value_short(group@);
        }
        let v = bin_to_dec(group.as_slice());
        push_hex_digit(&mut solution, v as usize);
        i += 1;
    }
    assert(hex_of(arr@).take(i as int) =~= hex_of(arr@));
    solution
}

/// The value of a hex digit of either case.
pub(crate) fn hex_char_value(c: char) -> (r: Option<u8>)
    ensures
        match hex_value(c) {
            Some(v) => r == Some(v as u8),
            None => r.is_none(),
        },
{
    let n = c as u32;
    if 48 <= n && n <= 57 {
        Some((n - 48) as u8)
    } else if 97 <= n && n <= 102 {
        Some((n - 87) as u8)
    } else if 65 <= n && n <= 70 {
        Some((n - 55) as u8)
    } else {
        None
    }
}

/// The four bits of a hex digit of either case, most significant first.
pub fn hex_char_to_bin(character: char) -> (r: Result<Vec<bool>, HashError>)
    ensures
        match hex_value(character) {
            Some(v) => r matches Ok(b) && b@ == nibble(v),
            None => r == Err::<Vec<bool>, HashError>(HashError::InvalidEncoding),
        },
{
    let v = match hex_char_value(character) {
        Some(v) => v,
        None => {
            return Err(HashError::InvalidEncoding);
        },
    };
    let r = vec![(v / 8) % 2 == 1, (v / 4) % 2 == 1, (v / 2) % 2 == 1, v % 2 == 1];
    assert(r@ =~= nibble(v as nat));
    Ok(r)
}

} // verus!
