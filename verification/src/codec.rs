//! Byte encoding of the payload records.
//!
//! A payload is laid out as a sequence of 128-bit words — counts, code
//! points and the fields of each number — and the words are then written
//! little-endian, sixteen bytes each. Decoding checks every word it reads,
//! so a byte string either decodes to a well-formed payload or is refused;
//! encoding followed by decoding returns the payload exactly.

use vstd::prelude::*;
use vstd::slice::*;
use crate::decimal::Real;
use crate::model::{AtomicCoordinates, CoordsVal, CubeVal, Molecule, MoleculeVal, VolumeCube};

verus! {

/// The `n` little-endian bytes of `v`.
pub open spec fn le_bytes(v: int, n: int) -> Seq<u8>
    decreases n,
{
    if n <= 0 {
        seq![]
    } else {
        seq![(v % 256) as u8] + le_bytes(v / 256, n - 1)
    }
}

/// The value the little-endian bytes denote.
pub open spec fn le_val(b: Seq<u8>) -> int
    decreases b.len(),
{
    if b.len() == 0 {
        0
    } else {
        b[0] + 256 * le_val(b.drop_first())
    }
}

pub open spec fn pow256(n: int) -> int
    decreases n,
{
    if n <= 0 {
        1
    } else {
        256 * pow256(n - 1)
    }
}

pub proof fn lemma_le_bytes_len(v: int, n: int)
    ensures
        n >= 0 ==> le_bytes(v, n).len() == n,
    decreases n,
{
    if n > 0 {
        lemma_le_bytes_len(v / 256, n - 1);
    }
}

pub proof fn lemma_le_val_bound(b: Seq<u8>)
    ensures
        0 <= le_val(b) < pow256(b.len() as int),
    decreases b.len(),
{
    if b.len() > 0 {
        lemma_le_val_bound(b.drop_first());
    }
}

pub proof fn lemma_pow256_pos(n: int)
    ensures
        pow256(n) >= 1,
    decreases n,
{
    if n > 0 {
        lemma_pow256_pos(n - 1);
    }
}

pub proof fn lemma_pow256_le(a: int, b: int)
    requires
        a <= b,
    ensures
        pow256(a) <= pow256(b),
    decreases b - a,
{
    if a < b {
        lemma_pow256_le(a, b - 1);
        lemma_pow256_pos(b - 1);
    }
}

/// Writing a value in `n` bytes and reading them back gives it back.
pub proof fn lemma_le_roundtrip(v: int, n: int)
    requires
        0 <= v < pow256(n),
    ensures
        le_val(le_bytes(v, n)) == v,
    decreases n,
{
    if n <= 0 {
    } else {
        assert(le_bytes(v, n).drop_first() =~= le_bytes(v / 256, n - 1));
        lemma_le_roundtrip(v / 256, n - 1);
    }
}

/// The words written out little-endian, sixteen bytes each.
pub open spec fn spec_words_bytes(w: Seq<u128>) -> Seq<u8>
    decreases w.len(),
{
    if w.len() == 0 {
        seq![]
    } else {
        le_bytes(w[0] as int, 16) + spec_words_bytes(w.drop_first())
    }
}

/// The bytes split back into words; refused unless a whole number of words.
pub open spec fn spec_bytes_words(b: Seq<u8>) -> Option<Seq<u128>> {
    if b.len() % 16 == 0 {
        Some(Seq::new((b.len() as int / 16) as nat, |i: int| le_val(b.subrange(16 * i, 16 * i + 16)) as u128))
    } else {
        None
    }
}

pub proof fn lemma_words_bytes_len(w: Seq<u128>)
    ensures
        spec_words_bytes(w).len() == 16 * w.len(),
    decreases w.len(),
{
    if w.len() > 0 {
        lemma_le_bytes_len(w[0] as int, 16);
        lemma_words_bytes_len(w.drop_first());
    }
}

proof fn lemma_words_bytes_block(w: Seq<u128>, i: int)
    requires
        0 <= i < w.len(),
    ensures
        spec_words_bytes(w).subrange(16 * i, 16 * i + 16) == le_bytes(w[i] as int, 16),
    decreases i,
{
    lemma_words_bytes_len(w);
    lemma_le_bytes_len(w[0] as int, 16);
    lemma_words_bytes_len(w.drop_first());
    if i == 0 {
        assert(spec_words_bytes(w).subrange(0, 16) =~= le_bytes(w[0] as int, 16));
    } else {
        lemma_words_bytes_block(w.drop_first(), i - 1);
        assert(spec_words_bytes(w).subrange(16 * i, 16 * i + 16) =~= spec_words_bytes(
            w.drop_first(),
        ).subrange(16 * (i - 1), 16 * (i - 1) + 16));
        assert(w.drop_first()[i - 1] == w[i]);
    }
}

pub proof fn lemma_pow256_16()
    ensures
        pow256(16) == 0x1_0000_0000_0000_0000_0000_0000_0000_0000,
{
    reveal_with_fuel(pow256, 17);
}

/// Laying words out as bytes and splitting them back gives the words.
pub proof fn lemma_words_bytes_roundtrip(w: Seq<u128>)
    ensures
        spec_bytes_words(spec_words_bytes(w)) == Some(w),
{
    lemma_words_bytes_len(w);
    let b = spec_words_bytes(w);
    assert(b.len() % 16 == 0);
    let w2 = spec_bytes_words(b)->0;
    assert forall|i: int| 0 <= i < w.len() implies w2[i] == w[i] by {
        lemma_words_bytes_block(w, i);
        lemma_pow256_16();
        lemma_le_roundtrip(w[i] as int, 16);
    }
    assert(w2 =~= w);
}

/// Appends the `n` little-endian bytes of `v`.
fn push_le(out: &mut Vec<u8>, v: u128, n: usize)
    ensures
        final(out)@ == old(out)@ + le_bytes(v as int, n as int),
    decreases n,
{
    if n == 0 {
        proof {
            assert(out@ + le_bytes(v as int, 0) =~= out@);
        }
    } else {
        let b: u8 = (v % 256) as u8;
        out.push(b);
        let ghost mid = out@;
        push_le(out, v / 256, n - 1);
        proof {
            assert(out@ =~= old(out)@ + le_bytes(v as int, n as int));
        }
    }
}

/// Appends the words, sixteen bytes each.
pub fn push_words_bytes(out: &mut Vec<u8>, w: &[u128])
    ensures
        final(out)@ == old(out)@ + spec_words_bytes(w@),
{
    let n = w.len();
    let mut i: usize = 0;
    proof {
        assert(w@.skip(0) =~= w@);
    }
    while i < n
        invariant
            i <= n,
            n == w@.len(),
            out@ + spec_words_bytes(w@.skip(i as int)) == old(out)@ + spec_words_bytes(w@),
        decreases n - i,
    {
        proof {
            assert(w@.skip(i as int)[0] == w@[i as int]);
            assert(w@.skip(i as int).drop_first() =~= w@.skip(i + 1 as int));
        }
        push_le(out, *slice_index_get(w, i), 16);
        i += 1;
    }
    proof {
        assert(spec_words_bytes(w@.skip(n as int)) =~= Seq::<u8>::empty());
        assert(out@ =~= out@ + spec_words_bytes(w@.skip(n as int)));
    }
}

/// Reads the `n`-byte little-endian value at `pos`.
fn read_le(b: &[u8], pos: usize, n: usize) -> (r: u128)
    requires
        n <= 16,
        pos + n <= b@.len(),
    ensures
        r as int == le_val(b@.subrange(pos as int, pos + n as int)),
    decreases n,
{
    if n == 0 {
        proof {
            assert(b@.subrange(pos as int, pos as int) =~= Seq::<u8>::empty());
        }
        0
    } else {
        let blen = b.len();
        proof {
            assert(pos + n <= blen);
        }
        let rest = read_le(b, pos + 1, n - 1);
        proof {
            lemma_le_val_bound(b@.subrange(pos + 1 as int, pos + n as int));
            lemma_pow256_le(n - 1 as int, 15);
            reveal_with_fuel(pow256, 17);
            assert(b@.subrange(pos as int, pos + n as int).drop_first() =~= b@.subrange(
                pos + 1 as int,
                pos + n as int,
            ));
            assert(b@.subrange(pos as int, pos + n as int)[0] == b@[pos as int]);
        }
        *slice_index_get(b, pos) as u128 + 256 * rest
    }
}

/// Splits the bytes back into words; `None` unless a whole number of words.
pub fn bytes_to_words(b: &[u8]) -> (r: Option<Vec<u128>>)
    ensures
        r is Some <==> spec_bytes_words(b@) is Some,
        r is Some ==> r->0@ == spec_bytes_words(b@)->0,
{
    let len = b.len();
    if len % 16 != 0 {
        return None;
    }
    let count = len / 16;
    let mut out: Vec<u128> = Vec::new();
    let mut i: usize = 0;
    while i < count
        invariant
            i <= count,
            len == b@.len(),
            len % 16 == 0,
            count == len / 16,
            out@.len() == i,
            forall|j: int|
                0 <= j < i ==> out@[j] == le_val(b@.subrange(16 * j, 16 * j + 16)) as u128,
        decreases count - i,
    {
        let w = read_le(b, i * 16, 16);
        proof {
            lemma_le_val_bound(b@.subrange(16 * i as int, 16 * i + 16 as int));
            lemma_pow256_16();
        }
        out.push(w);
        i += 1;
    }
    proof {
        assert(out@ =~= spec_bytes_words(b@)->0);
    }
    Some(out)
}

/// Word of a signed 32-bit value: its bit pattern.
pub open spec fn w_i32(v: i32) -> u128 {
    (v as u32) as u128
}

/// Words of one number: sign, mantissa, exponent bit pattern.
pub open spec fn w_real(r: Real) -> Seq<u128> {
    seq![
        if r.neg {
            1u128
        } else {
            0u128
        },
        r.mant,
        r.exp as u128,
    ]
}

pub open spec fn words_i32_items(s: Seq<i32>) -> Seq<u128>
    decreases s.len(),
{
    if s.len() == 0 {
        seq![]
    } else {
        seq![w_i32(s[0])] + words_i32_items(s.drop_first())
    }
}

/// A counted list of 32-bit values.
pub open spec fn words_i32s(s: Seq<i32>) -> Seq<u128> {
    seq![s.len() as u128] + words_i32_items(s)
}

pub open spec fn words_char_items(s: Seq<char>) -> Seq<u128>
    decreases s.len(),
{
    if s.len() == 0 {
        seq![]
    } else {
        seq![(s[0] as u32) as u128] + words_char_items(s.drop_first())
    }
}

/// A counted list of code points.
pub open spec fn words_chars(s: Seq<char>) -> Seq<u128> {
    seq![s.len() as u128] + words_char_items(s)
}

pub open spec fn words_real_items(s: Seq<Real>) -> Seq<u128>
    decreases s.len(),
{
    if s.len() == 0 {
        seq![]
    } else {
        w_real(s[0]) + words_real_items(s.drop_first())
    }
}

/// A counted list of numbers.
pub open spec fn words_reals(s: Seq<Real>) -> Seq<u128> {
    seq![s.len() as u128] + words_real_items(s)
}

pub open spec fn words_real_rows_items(s: Seq<Seq<Real>>) -> Seq<u128>
    decreases s.len(),
{
    if s.len() == 0 {
        seq![]
    } else {
        words_reals(s[0]) + words_real_rows_items(s.drop_first())
    }
}

/// A counted list of rows of numbers.
pub open spec fn words_real_rows(s: Seq<Seq<Real>>) -> Seq<u128> {
    seq![s.len() as u128] + words_real_rows_items(s)
}

pub open spec fn words_real_grid_items(s: Seq<Seq<Seq<Real>>>) -> Seq<u128>
    decreases s.len(),
{
    if s.len() == 0 {
        seq![]
    } else {
        words_real_rows(s[0]) + words_real_grid_items(s.drop_first())
    }
}

/// A counted list of planes, each a list of rows of numbers.
pub open spec fn words_real_grid(s: Seq<Seq<Seq<Real>>>) -> Seq<u128> {
    seq![s.len() as u128] + words_real_grid_items(s)
}

/// One 32-bit value read back from its word.
pub open spec fn rd_i32(w: Seq<u128>, pos: int) -> Option<(i32, int)> {
    if 0 <= pos < w.len() && w[pos] <= u32::MAX as u128 {
        Some((((w[pos] as u32) as i32), pos + 1))
    } else {
        None
    }
}

/// One character read back from its code-point word.
pub open spec fn rd_char(w: Seq<u128>, pos: int) -> Option<(char, int)> {
    if 0 <= pos < w.len() && w[pos] <= u32::MAX as u128 && vstd::utf8::is_scalar(w[pos] as u32) {
        Some(((w[pos] as u32) as char, pos + 1))
    } else {
        None
    }
}

/// One number read back from its three words.
pub open spec fn rd_real(w: Seq<u128>, pos: int) -> Option<(Real, int)> {
    if 0 <= pos && pos + 3 <= w.len() && w[pos] <= 1 {
        Some((Real { neg: w[pos] == 1, mant: w[pos + 1], exp: w[pos + 2] as i128 }, pos + 3))
    } else {
        None
    }
}

/// A list count read back; refused when it cannot index memory.
pub open spec fn rd_count(w: Seq<u128>, pos: int) -> Option<(int, int)> {
    if 0 <= pos < w.len() && w[pos] <= usize::MAX as u128 {
        Some((w[pos] as int, pos + 1))
    } else {
        None
    }
}

pub open spec fn rd_i32_items(w: Seq<u128>, pos: int, n: int) -> Option<(Seq<i32>, int)>
    decreases n,
{
    if n <= 0 {
        Some((seq![], pos))
    } else {
        match rd_i32(w, pos) {
            Some((v, p)) => match rd_i32_items(w, p, n - 1) {
                Some((s, p2)) => Some((seq![v] + s, p2)),
                None => None,
            },
            None => None,
        }
    }
}

pub open spec fn rd_i32s(w: Seq<u128>, pos: int) -> Option<(Seq<i32>, int)> {
    match rd_count(w, pos) {
        Some((n, p)) => rd_i32_items(w, p, n),
        None => None,
    }
}

pub open spec fn rd_char_items(w: Seq<u128>, pos: int, n: int) -> Option<(Seq<char>, int)>
    decreases n,
{
    if n <= 0 {
        Some((seq![], pos))
    } else {
        match rd_char(w, pos) {
            Some((v, p)) => match rd_char_items(w, p, n - 1) {
                Some((s, p2)) => Some((seq![v] + s, p2)),
                None => None,
            },
            None => None,
        }
    }
}

pub open spec fn rd_chars(w: Seq<u128>, pos: int) -> Option<(Seq<char>, int)> {
    match rd_count(w, pos) {
        Some((n, p)) => rd_char_items(w, p, n),
        None => None,
    }
}

pub open spec fn rd_real_items(w: Seq<u128>, pos: int, n: int) -> Option<(Seq<Real>, int)>
    decreases n,
{
    if n <= 0 {
        Some((seq![], pos))
    } else {
        match rd_real(w, pos) {
            Some((v, p)) => match rd_real_items(w, p, n - 1) {
                Some((s, p2)) => Some((seq![v] + s, p2)),
                None => None,
            },
            None => None,
        }
    }
}

pub open spec fn rd_reals(w: Seq<u128>, pos: int) -> Option<(Seq<Real>, int)> {
    match rd_count(w, pos) {
        Some((n, p)) => rd_real_items(w, p, n),
        None => None,
    }
}

pub open spec fn rd_real_rows_items(w: Seq<u128>, pos: int, n: int) -> Option<(Seq<Seq<Real>>, int)>
    decreases n,
{
    if n <= 0 {
        Some((seq![], pos))
    } else {
        match rd_reals(w, pos) {
            Some((v, p)) => match rd_real_rows_items(w, p, n - 1) {
                Some((s, p2)) => Some((seq![v] + s, p2)),
                None => None,
            },
            None => None,
        }
    }
}

pub open spec fn rd_real_rows(w: Seq<u128>, pos: int) -> Option<(Seq<Seq<Real>>, int)> {
    match rd_count(w, pos) {
        Some((n, p)) => rd_real_rows_items(w, p, n),
        None => None,
    }
}

pub open spec fn rd_real_grid_items(w: Seq<u128>, pos: int, n: int) -> Option<
    (Seq<Seq<Seq<Real>>>, int),
>
    decreases n,
{
    if n <= 0 {
        Some((seq![], pos))
    } else {
        match rd_real_rows(w, pos) {
            Some((v, p)) => match rd_real_grid_items(w, p, n - 1) {
                Some((s, p2)) => Some((seq![v] + s, p2)),
                None => None,
            },
            None => None,
        }
    }
}

pub open spec fn rd_real_grid(w: Seq<u128>, pos: int) -> Option<(Seq<Seq<Seq<Real>>>, int)> {
    match rd_count(w, pos) {
        Some((n, p)) => rd_real_grid_items(w, p, n),
        None => None,
    }
}

/// A run of words equal to a concatenation splits at the seam.
proof fn lemma_split_words(w: Seq<u128>, pos: int, head: Seq<u128>, tail: Seq<u128>)
    requires
        0 <= pos,
        pos + head.len() + tail.len() <= w.len(),
        w.subrange(pos, pos + head.len() + tail.len()) == head + tail,
    ensures
        w.subrange(pos, pos + head.len()) == head,
        w.subrange(pos + head.len(), pos + head.len() + tail.len()) == tail,
{
    let whole = w.subrange(pos, pos + head.len() + tail.len());
    assert(forall|j: int|
        0 <= j < whole.len() ==> #[trigger] whole[j] == w[pos + j] && whole[j] == (head + tail)[j]);
    assert(w.subrange(pos, pos + head.len()) =~= head);
    assert forall|k: int| 0 <= k < tail.len() implies w[pos + head.len() + k] == tail[k] by {
        assert(whole[head.len() + k] == w[pos + head.len() + k]);
        assert(whole[head.len() + k] == (head + tail)[head.len() + k]);
    }
    assert(w.subrange(pos + head.len(), pos + head.len() + tail.len()) =~= tail);
}

pub proof fn lemma_rd_i32_items(w: Seq<u128>, pos: int, s: Seq<i32>)
    requires
        0 <= pos,
        pos + s.len() <= w.len(),
        w.subrange(pos, pos + s.len()) == words_i32_items(s),
    ensures
        rd_i32_items(w, pos, s.len() as int) == Some((s, pos + s.len())),
    decreases s.len(),
{
    if s.len() > 0 {
        lemma_words_i32_items_len(s);
        lemma_words_i32_items_len(s.drop_first());
        assert(w[pos] == words_i32_items(s)[0]);
        assert(w[pos] == w_i32(s[0]));
        let ww = w[pos];
        let v0 = s[0];
        assert(((ww as u32) as i32) == v0) by (bit_vector)
            requires
                ww == ((v0 as u32) as u128),
        ;
        assert(words_i32_items(s.drop_first()).len() == s.len() - 1) by {
            lemma_words_i32_items_len(s.drop_first());
        }
        lemma_split_words(w, pos, seq![w_i32(s[0])], words_i32_items(s.drop_first()));
        lemma_rd_i32_items(w, pos + 1, s.drop_first());
        assert(seq![s[0]] + s.drop_first() =~= s);
    } else {
        assert(rd_i32_items(w, pos, 0) == Some((Seq::<i32>::empty(), pos)));
        assert(s =~= Seq::<i32>::empty());
    }
}

pub proof fn lemma_rd_char_items(w: Seq<u128>, pos: int, s: Seq<char>)
    requires
        0 <= pos,
        pos + s.len() <= w.len(),
        w.subrange(pos, pos + s.len()) == words_char_items(s),
    ensures
        rd_char_items(w, pos, s.len() as int) == Some((s, pos + s.len())),
    decreases s.len(),
{
    if s.len() > 0 {
        lemma_words_char_items_len(s);
        lemma_words_char_items_len(s.drop_first());
        assert(w[pos] == words_char_items(s)[0]);
        assert(w[pos] == ((s[0] as u32) as u128));
        vstd::utf8::char_is_scalar(s[0]);
        vstd::utf8::char_u32_cast(s[0], s[0] as u32);
        assert(w[pos] as u32 == s[0] as u32);
        lemma_split_words(w, pos, seq![(s[0] as u32) as u128], words_char_items(s.drop_first()));
        lemma_rd_char_items(w, pos + 1, s.drop_first());
        assert(seq![s[0]] + s.drop_first() =~= s);
    } else {
        assert(s =~= Seq::<char>::empty());
    }
}

pub proof fn lemma_rd_real(w: Seq<u128>, pos: int, r: Real)
    requires
        0 <= pos,
        pos + 3 <= w.len(),
        w.subrange(pos, pos + 3) == w_real(r),
    ensures
        rd_real(w, pos) == Some((r, pos + 3)),
{
    assert(w[pos] == w_real(r)[0]);
    assert(w[pos + 1] == w_real(r)[1]);
    assert(w[pos + 2] == w_real(r)[2]);
    let we = w[pos + 2];
    let e0 = r.exp;
    assert((we as i128) == e0) by (bit_vector)
        requires
            we == (e0 as u128),
    ;
    let dp = rd_real(w, pos)->0;
    assert(dp.0.neg == r.neg && dp.0.mant == r.mant && dp.0.exp == r.exp);
}

pub proof fn lemma_rd_real_items(w: Seq<u128>, pos: int, s: Seq<Real>)
    requires
        0 <= pos,
        pos + 3 * s.len() <= w.len(),
        w.subrange(pos, pos + 3 * s.len()) == words_real_items(s),
    ensures
        rd_real_items(w, pos, s.len() as int) == Some((s, pos + 3 * s.len())),
    decreases s.len(),
{
    lemma_words_real_items_len(s);
    if s.len() > 0 {
        lemma_words_real_items_len(s.drop_first());
        lemma_split_words(w, pos, w_real(s[0]), words_real_items(s.drop_first()));
        lemma_rd_real(w, pos, s[0]);
        lemma_rd_real_items(w, pos + 3, s.drop_first());
        assert(seq![s[0]] + s.drop_first() =~= s);
    } else {
        assert(s =~= Seq::<Real>::empty());
    }
}

pub proof fn lemma_words_real_items_len(s: Seq<Real>)
    ensures
        words_real_items(s).len() == 3 * s.len(),
    decreases s.len(),
{
    if s.len() > 0 {
        lemma_words_real_items_len(s.drop_first());
    }
}

pub proof fn lemma_words_i32_items_len(s: Seq<i32>)
    ensures
        words_i32_items(s).len() == s.len(),
    decreases s.len(),
{
    if s.len() > 0 {
        lemma_words_i32_items_len(s.drop_first());
    }
}

pub proof fn lemma_words_char_items_len(s: Seq<char>)
    ensures
        words_char_items(s).len() == s.len(),
    decreases s.len(),
{
    if s.len() > 0 {
        lemma_words_char_items_len(s.drop_first());
    }
}

pub proof fn lemma_rd_i32s(w: Seq<u128>, pos: int, s: Seq<i32>)
    requires
        0 <= pos,
        s.len() <= usize::MAX,
        pos + 1 + s.len() <= w.len(),
        w.subrange(pos, pos + 1 + s.len()) == words_i32s(s),
    ensures
        rd_i32s(w, pos) == Some((s, pos + 1 + s.len())),
{
    lemma_words_i32_items_len(s);
    lemma_split_words(w, pos, seq![s.len() as u128], words_i32_items(s));
    assert(w[pos] == w.subrange(pos, pos + 1)[0]);
    lemma_rd_i32_items(w, pos + 1, s);
}

pub proof fn lemma_rd_chars(w: Seq<u128>, pos: int, s: Seq<char>)
    requires
        0 <= pos,
        s.len() <= usize::MAX,
        pos + 1 + s.len() <= w.len(),
        w.subrange(pos, pos + 1 + s.len()) == words_chars(s),
    ensures
        rd_chars(w, pos) == Some((s, pos + 1 + s.len())),
{
    lemma_words_char_items_len(s);
    lemma_split_words(w, pos, seq![s.len() as u128], words_char_items(s));
    assert(w[pos] == w.subrange(pos, pos + 1)[0]);
    lemma_rd_char_items(w, pos + 1, s);
}

pub proof fn lemma_rd_reals(w: Seq<u128>, pos: int, s: Seq<Real>)
    requires
        0 <= pos,
        s.len() <= usize::MAX,
        pos + 1 + 3 * s.len() <= w.len(),
        w.subrange(pos, pos + 1 + 3 * s.len()) == words_reals(s),
    ensures
        rd_reals(w, pos) == Some((s, pos + 1 + 3 * s.len())),
{
    lemma_words_real_items_len(s);
    lemma_split_words(w, pos, seq![s.len() as u128], words_real_items(s));
    assert(w[pos] == w.subrange(pos, pos + 1)[0]);
    lemma_rd_real_items(w, pos + 1, s);
}

/// Every row short enough to index.
pub open spec fn rows_encodable(s: Seq<Seq<Real>>) -> bool {
    s.len() <= usize::MAX && forall|i: int| 0 <= i < s.len() ==> (#[trigger] s[i]).len() <= usize::MAX
}

pub proof fn lemma_rd_real_rows_items(w: Seq<u128>, pos: int, s: Seq<Seq<Real>>)
    requires
        0 <= pos,
        rows_encodable(s),
        pos + words_real_rows_items(s).len() <= w.len(),
        w.subrange(pos, pos + words_real_rows_items(s).len()) == words_real_rows_items(s),
    ensures
        rd_real_rows_items(w, pos, s.len() as int) == Some(
            (s, pos + words_real_rows_items(s).len()),
        ),
    decreases s.len(),
{
    if s.len() > 0 {
        let head = words_reals(s[0]);
        let tail = words_real_rows_items(s.drop_first());
        lemma_words_real_items_len(s[0]);
        lemma_split_words(w, pos, head, tail);
        lemma_rd_reals(w, pos, s[0]);
        assert(rows_encodable(s.drop_first())) by {
            assert(forall|i: int|
                0 <= i < s.drop_first().len() ==> #[trigger] s.drop_first()[i] == s[i + 1]);
        }
        lemma_rd_real_rows_items(w, pos + head.len(), s.drop_first());
        assert(seq![s[0]] + s.drop_first() =~= s);
    } else {
        assert(s =~= Seq::<Seq<Real>>::empty());
    }
}

pub proof fn lemma_rd_real_rows(w: Seq<u128>, pos: int, s: Seq<Seq<Real>>)
    requires
        0 <= pos,
        rows_encodable(s),
        pos + 1 + words_real_rows_items(s).len() <= w.len(),
        w.subrange(pos, pos + 1 + words_real_rows_items(s).len()) == words_real_rows(s),
    ensures
        rd_real_rows(w, pos) == Some((s, pos + 1 + words_real_rows_items(s).len())),
{
    lemma_split_words(w, pos, seq![s.len() as u128], words_real_rows_items(s));
    assert(w[pos] == w.subrange(pos, pos + 1)[0]);
    lemma_rd_real_rows_items(w, pos + 1, s);
}

/// Every plane and row short enough to index.
pub open spec fn grid_encodable(s: Seq<Seq<Seq<Real>>>) -> bool {
    s.len() <= usize::MAX && forall|i: int| 0 <= i < s.len() ==> rows_encodable(#[trigger] s[i])
}

pub proof fn lemma_rd_real_grid_items(w: Seq<u128>, pos: int, s: Seq<Seq<Seq<Real>>>)
    requires
        0 <= pos,
        grid_encodable(s),
        pos + words_real_grid_items(s).len() <= w.len(),
        w.subrange(pos, pos + words_real_grid_items(s).len()) == words_real_grid_items(s),
    ensures
        rd_real_grid_items(w, pos, s.len() as int) == Some(
            (s, pos + words_real_grid_items(s).len()),
        ),
    decreases s.len(),
{
    if s.len() > 0 {
        let head = words_real_rows(s[0]);
        let tail = words_real_grid_items(s.drop_first());
        lemma_split_words(w, pos, head, tail);
        lemma_rd_real_rows(w, pos, s[0]);
        assert(grid_encodable(s.drop_first())) by {
            assert(forall|i: int|
                0 <= i < s.drop_first().len() ==> #[trigger] s.drop_first()[i] == s[i + 1]);
        }
        lemma_rd_real_grid_items(w, pos + head.len(), s.drop_first());
        assert(seq![s[0]] + s.drop_first() =~= s);
    } else {
        assert(s =~= Seq::<Seq<Seq<Real>>>::empty());
    }
}

pub proof fn lemma_rd_real_grid(w: Seq<u128>, pos: int, s: Seq<Seq<Seq<Real>>>)
    requires
        0 <= pos,
        grid_encodable(s),
        pos + 1 + words_real_grid_items(s).len() <= w.len(),
        w.subrange(pos, pos + 1 + words_real_grid_items(s).len()) == words_real_grid(s),
    ensures
        rd_real_grid(w, pos) == Some((s, pos + 1 + words_real_grid_items(s).len())),
{
    lemma_split_words(w, pos, seq![s.len() as u128], words_real_grid_items(s));
    assert(w[pos] == w.subrange(pos, pos + 1)[0]);
    lemma_rd_real_grid_items(w, pos + 1, s);
}

/// Words of a coordinate block: the four counted arrays in order.
pub open spec fn words_coords(c: CoordsVal) -> Seq<u128> {
    words_i32s(c.nums) + words_reals(c.xs) + words_reals(c.ys) + words_reals(c.zs)
}

pub open spec fn rd_coords(w: Seq<u128>, pos: int) -> Option<(CoordsVal, int)> {
    match rd_i32s(w, pos) {
        Some((nums, p1)) => match rd_reals(w, p1) {
            Some((xs, p2)) => match rd_reals(w, p2) {
                Some((ys, p3)) => match rd_reals(w, p3) {
                    Some((zs, p4)) => Some((CoordsVal { nums, xs, ys, zs }, p4)),
                    None => None,
                },
                None => None,
            },
            None => None,
        },
        None => None,
    }
}

/// The byte encoding of a coordinate block.
pub open spec fn spec_enc_coords(c: CoordsVal) -> Seq<u8> {
    spec_words_bytes(words_coords(c))
}

/// The coordinate block a byte string encodes, if any; trailing bytes are
/// refused.
pub open spec fn spec_dec_coords(b: Seq<u8>) -> Option<CoordsVal> {
    match spec_bytes_words(b) {
        Some(w) => match rd_coords(w, 0) {
            Some((c, p)) => if p == w.len() {
                Some(c)
            } else {
                None
            },
            None => None,
        },
        None => None,
    }
}

/// Short enough for its counts to be list lengths.
pub open spec fn coords_encodable(c: CoordsVal) -> bool {
    c.nums.len() <= usize::MAX && c.xs.len() <= usize::MAX && c.ys.len() <= usize::MAX
        && c.zs.len() <= usize::MAX
}

/// Encoding a coordinate block and decoding the bytes returns it exactly.
#[verifier::rlimit(80)]
pub proof fn lemma_coords_round_trip(c: CoordsVal)
    requires
        coords_encodable(c),
    ensures
        spec_dec_coords(spec_enc_coords(c)) == Some(c),
{
    let w = words_coords(c);
    lemma_words_bytes_roundtrip(w);
    lemma_words_i32_items_len(c.nums);
    lemma_words_real_items_len(c.xs);
    lemma_words_real_items_len(c.ys);
    lemma_words_real_items_len(c.zs);
    let a = words_i32s(c.nums);
    let bx = words_reals(c.xs);
    let by = words_reals(c.ys);
    let bz = words_reals(c.zs);
    assert(w.subrange(0, w.len() as int) =~= w);
    assert(w =~= a + (bx + (by + bz)));
    lemma_split_words(w, 0, a, bx + (by + bz));
    lemma_rd_i32s(w, 0, c.nums);
    lemma_split_words(w, a.len() as int, bx, by + bz);
    lemma_rd_reals(w, a.len() as int, c.xs);
    lemma_split_words(w, (a.len() + bx.len()) as int, by, bz);
    lemma_rd_reals(w, (a.len() + bx.len()) as int, c.ys);
    lemma_rd_reals(w, (a.len() + bx.len() + by.len()) as int, c.zs);
}

/// Words of a molecule summary: the counts, numbers, charge and name.
pub open spec fn words_molecule(m: MoleculeVal) -> Seq<u128> {
    seq![w_i32(m.n_atoms)] + words_i32s(m.nums) + seq![w_i32(m.charge)] + words_chars(m.name)
}

pub open spec fn rd_molecule(w: Seq<u128>, pos: int) -> Option<(MoleculeVal, int)> {
    match rd_i32(w, pos) {
        Some((n_atoms, p1)) => match rd_i32s(w, p1) {
            Some((nums, p2)) => match rd_i32(w, p2) {
                Some((charge, p3)) => match rd_chars(w, p3) {
                    Some((name, p4)) => Some((MoleculeVal { n_atoms, nums, charge, name }, p4)),
                    None => None,
                },
                None => None,
            },
            None => None,
        },
        None => None,
    }
}

/// The byte encoding of a molecule summary.
pub open spec fn spec_enc_molecule(m: MoleculeVal) -> Seq<u8> {
    spec_words_bytes(words_molecule(m))
}

/// The molecule summary a byte string encodes, if any.
pub open spec fn spec_dec_molecule(b: Seq<u8>) -> Option<MoleculeVal> {
    match spec_bytes_words(b) {
        Some(w) => match rd_molecule(w, 0) {
            Some((m, p)) => if p == w.len() {
                Some(m)
            } else {
                None
            },
            None => None,
        },
        None => None,
    }
}

pub open spec fn molecule_encodable(m: MoleculeVal) -> bool {
    m.nums.len() <= usize::MAX && m.name.len() <= usize::MAX
}

proof fn lemma_rd_one_i32(w: Seq<u128>, pos: int, v: i32)
    requires
        0 <= pos,
        pos + 1 <= w.len(),
        w.subrange(pos, pos + 1) == seq![w_i32(v)],
    ensures
        rd_i32(w, pos) == Some((v, pos + 1)),
{
    assert(w[pos] == w.subrange(pos, pos + 1)[0]);
    let ww = w[pos];
    assert(((ww as u32) as i32) == v) by (bit_vector)
        requires
            ww == ((v as u32) as u128),
    ;
}

/// Encoding a molecule summary and decoding the bytes returns it exactly.
pub proof fn lemma_molecule_round_trip(m: MoleculeVal)
    requires
        molecule_encodable(m),
    ensures
        spec_dec_molecule(spec_enc_molecule(m)) == Some(m),
{
    let w = words_molecule(m);
    lemma_words_bytes_roundtrip(w);
    lemma_words_i32_items_len(m.nums);
    lemma_words_char_items_len(m.name);
    let a = seq![w_i32(m.n_atoms)];
    let b = words_i32s(m.nums);
    let c = seq![w_i32(m.charge)];
    let d = words_chars(m.name);
    assert(w.subrange(0, w.len() as int) =~= w);
    assert(w =~= a + (b + (c + d)));
    lemma_split_words(w, 0, a, b + (c + d));
    lemma_rd_one_i32(w, 0, m.n_atoms);
    lemma_split_words(w, 1, b, c + d);
    lemma_rd_i32s(w, 1, m.nums);
    lemma_split_words(w, (1 + b.len()) as int, c, d);
    lemma_rd_one_i32(w, (1 + b.len()) as int, m.charge);
    lemma_rd_chars(w, (1 + b.len() + 1) as int, m.name);
}

/// Words of a volume cube: comments, origin, grid counts, step vectors and
/// the data grid.
pub open spec fn words_cube(c: CubeVal) -> Seq<u128> {
    words_chars(c.comment1) + words_chars(c.comment2) + words_reals(c.origin) + words_i32s(
        c.steps_number,
    ) + words_real_rows(c.steps_size) + words_real_grid(c.cube_data)
}

pub open spec fn rd_cube(w: Seq<u128>, pos: int) -> Option<(CubeVal, int)> {
    match rd_chars(w, pos) {
        Some((comment1, p1)) => match rd_chars(w, p1) {
            Some((comment2, p2)) => match rd_reals(w, p2) {
                Some((origin, p3)) => match rd_i32s(w, p3) {
                    Some((steps_number, p4)) => match rd_real_rows(w, p4) {
                        Some((steps_size, p5)) => match rd_real_grid(w, p5) {
                            Some((cube_data, p6)) => Some(
                                (
                                    CubeVal {
                                        comment1,
                                        comment2,
                                        origin,
                                        steps_number,
                                        steps_size,
                                        cube_data,
                                    },
                                    p6,
                                ),
                            ),
                            None => None,
                        },
                        None => None,
                    },
                    None => None,
                },
                None => None,
            },
            None => None,
        },
        None => None,
    }
}

/// The byte encoding of a volume cube.
pub open spec fn spec_enc_cube(c: CubeVal) -> Seq<u8> {
    spec_words_bytes(words_cube(c))
}

/// The volume cube a byte string encodes, if any.
pub open spec fn spec_dec_cube(b: Seq<u8>) -> Option<CubeVal> {
    match spec_bytes_words(b) {
        Some(w) => match rd_cube(w, 0) {
            Some((c, p)) => if p == w.len() {
                Some(c)
            } else {
                None
            },
            None => None,
        },
        None => None,
    }
}

pub open spec fn cube_encodable(c: CubeVal) -> bool {
    c.comment1.len() <= usize::MAX && c.comment2.len() <= usize::MAX && c.origin.len()
        <= usize::MAX && c.steps_number.len() <= usize::MAX && rows_encodable(c.steps_size)
        && grid_encodable(c.cube_data)
}

/// Encoding a volume cube and decoding the bytes returns it exactly.
#[verifier::rlimit(100)]
#[verifier::spinoff_prover]
pub proof fn lemma_cube_round_trip(c: CubeVal)
    requires
        cube_encodable(c),
    ensures
        spec_dec_cube(spec_enc_cube(c)) == Some(c),
{
    let w = words_cube(c);
    lemma_words_bytes_roundtrip(w);
    lemma_words_char_items_len(c.comment1);
    lemma_words_char_items_len(c.comment2);
    lemma_words_real_items_len(c.origin);
    lemma_words_i32_items_len(c.steps_number);
    let p1 = words_chars(c.comment1);
    let p2 = words_chars(c.comment2);
    let p3 = words_reals(c.origin);
    let p4 = words_i32s(c.steps_number);
    let p5 = words_real_rows(c.steps_size);
    let p6 = words_real_grid(c.cube_data);
    let a2 = p1 + p2;
    let a3 = a2 + p3;
    let a4 = a3 + p4;
    let a5 = a4 + p5;
    assert(w.subrange(0, w.len() as int) =~= w);
    lemma_split_words(w, 0, a5, p6);
    lemma_split_words(w, 0, a4, p5);
    lemma_split_words(w, 0, a3, p4);
    lemma_split_words(w, 0, a2, p3);
    lemma_split_words(w, 0, p1, p2);
    lemma_rd_chars(w, 0, c.comment1);
    let o1 = p1.len() as int;
    lemma_rd_chars(w, o1, c.comment2);
    let o2 = o1 + p2.len();
    lemma_rd_reals(w, o2, c.origin);
    let o3 = o2 + p3.len();
    lemma_rd_i32s(w, o3, c.steps_number);
    let o4 = o3 + p4.len();
    lemma_rd_real_rows(w, o4, c.steps_size);
    let o5 = o4 + p5.len();
    lemma_rd_real_grid(w, o5, c.cube_data);
}

fn push_i32s(out: &mut Vec<u128>, v: &[i32])
    ensures
        final(out)@ == old(out)@ + words_i32s(v@),
{
    let n = v.len();
    out.push(n as u128);
    let mut i: usize = 0;
    proof {
        assert(v@.skip(0) =~= v@);
    }
    while i < n
        invariant
            i <= n,
            n == v@.len(),
            out@ + words_i32_items(v@.skip(i as int)) == old(out)@ + words_i32s(v@),
        decreases n - i,
    {
        proof {
            assert(v@.skip(i as int)[0] == v@[i as int]);
            assert(v@.skip(i as int).drop_first() =~= v@.skip(i + 1 as int));
        }
        let x = *slice_index_get(v, i);
        out.push((x as u32) as u128);
        i += 1;
    }
    proof {
        assert(words_i32_items(v@.skip(n as int)) =~= Seq::<u128>::empty());
        assert(out@ =~= out@ + words_i32_items(v@.skip(n as int)));
    }
}

fn push_chars(out: &mut Vec<u128>, v: &[char])
    ensures
        final(out)@ == old(out)@ + words_chars(v@),
{
    let n = v.len();
    out.push(n as u128);
    let mut i: usize = 0;
    proof {
        assert(v@.skip(0) =~= v@);
    }
    while i < n
        invariant
            i <= n,
            n == v@.len(),
            out@ + words_char_items(v@.skip(i as int)) == old(out)@ + words_chars(v@),
        decreases n - i,
    {
        proof {
            assert(v@.skip(i as int)[0] == v@[i as int]);
            assert(v@.skip(i as int).drop_first() =~= v@.skip(i + 1 as int));
        }
        let x = *slice_index_get(v, i);
        out.push((x as u32) as u128);
        i += 1;
    }
    proof {
        assert(words_char_items(v@.skip(n as int)) =~= Seq::<u128>::empty());
        assert(out@ =~= out@ + words_char_items(v@.skip(n as int)));
    }
}

fn push_reals(out: &mut Vec<u128>, v: &[Real])
    ensures
        final(out)@ == old(out)@ + words_reals(v@),
{
    let n = v.len();
    out.push(n as u128);
    let mut i: usize = 0;
    proof {
        assert(v@.skip(0) =~= v@);
    }
    while i < n
        invariant
            i <= n,
            n == v@.len(),
            out@ + words_real_items(v@.skip(i as int)) == old(out)@ + words_reals(v@),
        decreases n - i,
    {
        proof {
            assert(v@.skip(i as int)[0] == v@[i as int]);
            assert(v@.skip(i as int).drop_first() =~= v@.skip(i + 1 as int));
        }
        let x = *slice_index_get(v, i);
        if x.neg {
            out.push(1u128);
        } else {
            out.push(0u128);
        }
        out.push(x.mant);
        out.push(x.exp as u128);
        proof {
            assert(out@ =~= old(out)@ + words_reals(v@).take(
                out@.len() - old(out)@.len() as int,
            ) || true);
            assert(out@ + words_real_items(v@.skip(i + 1 as int)) =~= (out@.subrange(
                0,
                out@.len() - 3 as int,
            ) + w_real(v@[i as int])) + words_real_items(v@.skip(i + 1 as int)));
        }
        i += 1;
    }
    proof {
        assert(words_real_items(v@.skip(n as int)) =~= Seq::<u128>::empty());
        assert(out@ =~= out@ + words_real_items(v@.skip(n as int)));
    }
}

/// Ghost view of a vector of rows.
pub open spec fn rows_view(v: Vec<Vec<Real>>) -> Seq<Seq<Real>> {
    Seq::new(v@.len(), |i: int| v@[i]@)
}

/// Ghost view of a vector of planes.
pub open spec fn grid_view(v: Vec<Vec<Vec<Real>>>) -> Seq<Seq<Seq<Real>>> {
    Seq::new(v@.len(), |i: int| rows_view(v@[i]))
}

fn push_real_rows(out: &mut Vec<u128>, v: &Vec<Vec<Real>>)
    ensures
        final(out)@ == old(out)@ + words_real_rows(rows_view(*v)),
{
    let ghost rows = rows_view(*v);
    let n = v.len();
    out.push(n as u128);
    let mut i: usize = 0;
    proof {
        assert(rows.skip(0) =~= rows);
    }
    while i < n
        invariant
            i <= n,
            n == v@.len(),
            rows == rows_view(*v),
            rows.len() == n,
            out@ + words_real_rows_items(rows.skip(i as int)) == old(out)@ + words_real_rows(rows),
        decreases n - i,
    {
        proof {
            assert(rows.skip(i as int)[0] == rows[i as int]);
            assert(rows.skip(i as int).drop_first() =~= rows.skip(i + 1 as int));
            assert(rows[i as int] == v@[i as int]@);
        }
        push_reals(out, v[i].as_slice());
        i += 1;
    }
    proof {
        assert(words_real_rows_items(rows.skip(n as int)) =~= Seq::<u128>::empty());
        assert(out@ =~= out@ + words_real_rows_items(rows.skip(n as int)));
    }
}

fn push_real_grid(out: &mut Vec<u128>, v: &Vec<Vec<Vec<Real>>>)
    ensures
        final(out)@ == old(out)@ + words_real_grid(grid_view(*v)),
{
    let ghost grid = grid_view(*v);
    let n = v.len();
    out.push(n as u128);
    let mut i: usize = 0;
    proof {
        assert(grid.skip(0) =~= grid);
    }
    while i < n
        invariant
            i <= n,
            n == v@.len(),
            grid == grid_view(*v),
            grid.len() == n,
            out@ + words_real_grid_items(grid.skip(i as int)) == old(out)@ + words_real_grid(grid),
        decreases n - i,
    {
        proof {
            assert(grid.skip(i as int)[0] == grid[i as int]);
            assert(grid.skip(i as int).drop_first() =~= grid.skip(i + 1 as int));
            assert(grid[i as int] == rows_view(v@[i as int]));
        }
        push_real_rows(out, &v[i]);
        i += 1;
    }
    proof {
        assert(words_real_grid_items(grid.skip(n as int)) =~= Seq::<u128>::empty());
        assert(out@ =~= out@ + words_real_grid_items(grid.skip(n as int)));
    }
}

/// Encodes a coordinate block into bytes.
pub fn encode_coords(c: &AtomicCoordinates) -> (r: Vec<u8>)
    ensures
        r@ == spec_enc_coords(c@),
{
    let mut words: Vec<u128> = Vec::new();
    push_i32s(&mut words, c.atomic_num.as_slice());
    push_reals(&mut words, c.x.as_slice());
    push_reals(&mut words, c.y.as_slice());
    push_reals(&mut words, c.z.as_slice());
    proof {
        assert(words@ =~= words_coords(c@));
    }
    let mut out: Vec<u8> = Vec::new();
    push_words_bytes(&mut out, words.as_slice());
    proof {
        assert(out@ =~= spec_enc_coords(c@));
    }
    out
}

/// Encodes a molecule summary into bytes.
pub fn encode_molecule(m: &Molecule) -> (r: Vec<u8>)
    ensures
        r@ == spec_enc_molecule(m@),
{
    let mut words: Vec<u128> = Vec::new();
    words.push((m.n_atoms as u32) as u128);
    push_i32s(&mut words, m.atomic_num.as_slice());
    words.push((m.charge as u32) as u128);
    let name_chars = crate::text::to_chars(m.name.as_str());
    push_chars(&mut words, name_chars.as_slice());
    proof {
        assert(words@ =~= words_molecule(m@));
    }
    let mut out: Vec<u8> = Vec::new();
    push_words_bytes(&mut out, words.as_slice());
    proof {
        assert(out@ =~= spec_enc_molecule(m@));
    }
    out
}

/// Encodes a volume cube into bytes.
pub fn encode_cube(c: &VolumeCube) -> (r: Vec<u8>)
    ensures
        r@ == spec_enc_cube(c@),
{
    let mut words: Vec<u128> = Vec::new();
    let c1 = crate::text::to_chars(c.comment1.as_str());
    push_chars(&mut words, c1.as_slice());
    let c2 = crate::text::to_chars(c.comment2.as_str());
    push_chars(&mut words, c2.as_slice());
    push_reals(&mut words, c.box_origin.as_slice());
    push_i32s(&mut words, c.steps_number.as_slice());
    push_real_rows(&mut words, &c.steps_size);
    push_real_grid(&mut words, &c.cube_data);
    proof {
        assert(rows_view(c.steps_size) =~~= c@.steps_size);
        assert(grid_view(c.cube_data) =~~= c@.cube_data);
        assert(words@ =~= words_cube(c@));
    }
    let mut out: Vec<u8> = Vec::new();
    push_words_bytes(&mut out, words.as_slice());
    proof {
        assert(out@ =~= spec_enc_cube(c@));
    }
    out
}

fn dec_i32s(w: &[u128], pos: usize) -> (r: Option<(Vec<i32>, usize)>)
    ensures
        r is Some <==> rd_i32s(w@, pos as int) is Some,
        r matches Some(v) ==> rd_i32s(w@, pos as int) == Some((v.0@, v.1 as int)),
        r matches Some(v) ==> v.1 <= w@.len(),
{
    let wlen = w.len();
    if pos >= wlen {
        return None;
    }
    let cw = *slice_index_get(w, pos);
    if cw > usize::MAX as u128 {
        return None;
    }
    let n = cw as usize;
    let mut acc: Vec<i32> = Vec::new();
    let mut p = pos + 1;
    let mut i: usize = 0;
    proof {
        let items0 = rd_i32_items(w@, p as int, n as int);
        if items0 is Some {
            let sq0 = items0->0;
            assert(acc@ + sq0.0 =~= sq0.0);
        }
    }
    while i < n
        invariant
            i <= n,
            wlen == w@.len(),
            p <= wlen,
            rd_i32s(w@, pos as int) == (match rd_i32_items(w@, p as int, n - i) {
                Some((s, q)) => Some((acc@ + s, q)),
                None => None,
            }),
        decreases n - i,
    {
        if p >= wlen {
            return None;
        }
        let v = *slice_index_get(w, p);
        if v > u32::MAX as u128 {
            return None;
        }
        let x = (v as u32) as i32;
        let ghost old_acc = acc@;
        acc.push(x);
        p += 1;
        i += 1;
        proof {
            let items = rd_i32_items(w@, p as int, n - i);
            if items is Some {
                let sq = items->0;
                assert(old_acc + (seq![x] + sq.0) =~= acc@ + sq.0);
            }
        }
    }
    proof {
        assert(acc@ + Seq::<i32>::empty() =~= acc@);
    }
    Some((acc, p))
}

fn dec_chars(w: &[u128], pos: usize) -> (r: Option<(String, usize)>)
    ensures
        r is Some <==> rd_chars(w@, pos as int) is Some,
        r matches Some(v) ==> rd_chars(w@, pos as int) == Some((v.0@, v.1 as int)),
        r matches Some(v) ==> v.1 <= w@.len(),
{
    let wlen = w.len();
    if pos >= wlen {
        return None;
    }
    let cw = *slice_index_get(w, pos);
    if cw > usize::MAX as u128 {
        return None;
    }
    let n = cw as usize;
    let mut acc = String::new();
    let mut p = pos + 1;
    let mut i: usize = 0;
    proof {
        let items0 = rd_char_items(w@, p as int, n as int);
        if items0 is Some {
            let sq0 = items0->0;
            assert(acc@ + sq0.0 =~= sq0.0);
        }
    }
    while i < n
        invariant
            i <= n,
            wlen == w@.len(),
            p <= wlen,
            rd_chars(w@, pos as int) == (match rd_char_items(w@, p as int, n - i) {
                Some((s, q)) => Some((acc@ + s, q)),
                None => None,
            }),
        decreases n - i,
    {
        if p >= wlen {
            return None;
        }
        let v = *slice_index_get(w, p);
        if v > u32::MAX as u128 {
            return None;
        }
        let x = match char::from_u32(v as u32) {
            Some(c) => c,
            None => {
                return None;
            },
        };
        proof {
            vstd::utf8::char_u32_cast(x, v as u32);
        }
        let ghost old_acc = acc@;
        acc.push(x);
        p += 1;
        i += 1;
        proof {
            let items = rd_char_items(w@, p as int, n - i);
            if items is Some {
                let sq = items->0;
                assert(old_acc + (seq![x] + sq.0) =~= acc@ + sq.0);
            }
        }
    }
    proof {
        assert(acc@ + Seq::<char>::empty() =~= acc@);
    }
    Some((acc, p))
}

fn dec_reals(w: &[u128], pos: usize) -> (r: Option<(Vec<Real>, usize)>)
    ensures
        r is Some <==> rd_reals(w@, pos as int) is Some,
        r matches Some(v) ==> rd_reals(w@, pos as int) == Some((v.0@, v.1 as int)),
        r matches Some(v) ==> v.1 <= w@.len(),
{
    let wlen = w.len();
    if pos >= wlen {
        return None;
    }
    let cw = *slice_index_get(w, pos);
    if cw > usize::MAX as u128 {
        return None;
    }
    let n = cw as usize;
    let mut acc: Vec<Real> = Vec::new();
    let mut p = pos + 1;
    let mut i: usize = 0;
    proof {
        let items0 = rd_real_items(w@, p as int, n as int);
        if items0 is Some {
            let sq0 = items0->0;
            assert(acc@ + sq0.0 =~= sq0.0);
        }
    }
    while i < n
        invariant
            i <= n,
            wlen == w@.len(),
            p <= wlen,
            rd_reals(w@, pos as int) == (match rd_real_items(w@, p as int, n - i) {
                Some((s, q)) => Some((acc@ + s, q)),
                None => None,
            }),
        decreases n - i,
    {
        if p >= wlen || wlen - p < 3 {
            return None;
        }
        let negw = *slice_index_get(w, p);
        if negw > 1 {
            return None;
        }
        let mant = *slice_index_get(w, p + 1);
        let expw = *slice_index_get(w, p + 2);
        let x = Real { neg: negw == 1, mant, exp: expw as i128 };
        let ghost old_acc = acc@;
        acc.push(x);
        p += 3;
        i += 1;
        proof {
            let items = rd_real_items(w@, p as int, n - i);
            if items is Some {
                let sq = items->0;
                assert(old_acc + (seq![x] + sq.0) =~= acc@ + sq.0);
            }
        }
    }
    proof {
        assert(acc@ + Seq::<Real>::empty() =~= acc@);
    }
    Some((acc, p))
}

fn dec_real_rows(w: &[u128], pos: usize) -> (r: Option<(Vec<Vec<Real>>, usize)>)
    ensures
        r is Some <==> rd_real_rows(w@, pos as int) is Some,
        r matches Some(v) ==> rd_real_rows(w@, pos as int) == Some((rows_view(v.0), v.1 as int)),
        r matches Some(v) ==> v.1 <= w@.len(),
{
    let wlen = w.len();
    if pos >= wlen {
        return None;
    }
    let cw = *slice_index_get(w, pos);
    if cw > usize::MAX as u128 {
        return None;
    }
    let n = cw as usize;
    let mut acc: Vec<Vec<Real>> = Vec::new();
    let mut p = pos + 1;
    let mut i: usize = 0;
    proof {
        let items0 = rd_real_rows_items(w@, p as int, n as int);
        if items0 is Some {
            let sq0 = items0->0;
            assert(rows_view(acc) + sq0.0 =~= sq0.0);
        }
    }
    while i < n
        invariant
            i <= n,
            wlen == w@.len(),
            p <= wlen,
            rd_real_rows(w@, pos as int) == (match rd_real_rows_items(w@, p as int, n - i) {
                Some((s, q)) => Some((rows_view(acc) + s, q)),
                None => None,
            }),
        decreases n - i,
    {
        let row = match dec_reals(w, p) {
            Some(rp) => rp,
            None => {
                return None;
            },
        };
        let ghost old_view = rows_view(acc);
        let ghost rowv = row.0@;
        acc.push(row.0);
        p = row.1;
        i += 1;
        proof {
            assert(rows_view(acc) =~= old_view.push(rowv));
            let items = rd_real_rows_items(w@, p as int, n - i);
            if items is Some {
                let sq = items->0;
                assert(old_view + (seq![rowv] + sq.0) =~= rows_view(acc) + sq.0);
            }
        }
    }
    proof {
        assert(rows_view(acc) + Seq::<Seq<Real>>::empty() =~= rows_view(acc));
    }
    Some((acc, p))
}

fn dec_real_grid(w: &[u128], pos: usize) -> (r: Option<(Vec<Vec<Vec<Real>>>, usize)>)
    ensures
        r is Some <==> rd_real_grid(w@, pos as int) is Some,
        r matches Some(v) ==> rd_real_grid(w@, pos as int) == Some((grid_view(v.0), v.1 as int)),
        r matches Some(v) ==> v.1 <= w@.len(),
{
    let wlen = w.len();
    if pos >= wlen {
        return None;
    }
    let cw = *slice_index_get(w, pos);
    if cw > usize::MAX as u128 {
        return None;
    }
    let n = cw as usize;
    let mut acc: Vec<Vec<Vec<Real>>> = Vec::new();
    let mut p = pos + 1;
    let mut i: usize = 0;
    proof {
        let items0 = rd_real_grid_items(w@, p as int, n as int);
        if items0 is Some {
            let sq0 = items0->0;
            assert(grid_view(acc) + sq0.0 =~= sq0.0);
        }
    }
    while i < n
        invariant
            i <= n,
            wlen == w@.len(),
            p <= wlen,
            rd_real_grid(w@, pos as int) == (match rd_real_grid_items(w@, p as int, n - i) {
                Some((s, q)) => Some((grid_view(acc) + s, q)),
                None => None,
            }),
        decreases n - i,
    {
        let plane = match dec_real_rows(w, p) {
            Some(rp) => rp,
            None => {
                return None;
            },
        };
        let ghost old_view = grid_view(acc);
        let ghost planev = rows_view(plane.0);
        acc.push(plane.0);
        p = plane.1;
        i += 1;
        proof {
            assert(grid_view(acc) =~= old_view.push(planev));
            let items = rd_real_grid_items(w@, p as int, n - i);
            if items is Some {
                let sq = items->0;
                assert(old_view + (seq![planev] + sq.0) =~= grid_view(acc) + sq.0);
            }
        }
    }
    proof {
        assert(grid_view(acc) + Seq::<Seq<Seq<Real>>>::empty() =~= grid_view(acc));
    }
    Some((acc, p))
}

/// Decodes a coordinate block from bytes; trailing bytes are refused.
pub fn decode_coords(b: &[u8]) -> (r: Option<AtomicCoordinates>)
    ensures
        r is Some <==> spec_dec_coords(b@) is Some,
        r is Some ==> r->0@ == spec_dec_coords(b@)->0,
{
    let words = match bytes_to_words(b) {
        Some(ws) => ws,
        None => {
            return None;
        },
    };
    let wlen = words.len();
    let w = words.as_slice();
    let (nums, p1) = match dec_i32s(w, 0) {
        Some(v) => v,
        None => {
            return None;
        },
    };
    let (xs, p2) = match dec_reals(w, p1) {
        Some(v) => v,
        None => {
            return None;
        },
    };
    let (ys, p3) = match dec_reals(w, p2) {
        Some(v) => v,
        None => {
            return None;
        },
    };
    let (zs, p4) = match dec_reals(w, p3) {
        Some(v) => v,
        None => {
            return None;
        },
    };
    if p4 != wlen {
        return None;
    }
    Some(AtomicCoordinates { atomic_num: nums, x: xs, y: ys, z: zs })
}

/// Decodes a molecule summary from bytes; trailing bytes are refused.
pub fn decode_molecule(b: &[u8]) -> (r: Option<Molecule>)
    ensures
        r is Some <==> spec_dec_molecule(b@) is Some,
        r is Some ==> r->0@ == spec_dec_molecule(b@)->0,
{
    let words = match bytes_to_words(b) {
        Some(ws) => ws,
        None => {
            return None;
        },
    };
    let wlen = words.len();
    let w = words.as_slice();
    if wlen == 0 {
        return None;
    }
    let naw = *slice_index_get(w, 0);
    if naw > u32::MAX as u128 {
        return None;
    }
    let n_atoms = (naw as u32) as i32;
    let (nums, p2) = match dec_i32s(w, 1) {
        Some(v) => v,
        None => {
            return None;
        },
    };
    if p2 >= wlen {
        return None;
    }
    let chw = *slice_index_get(w, p2);
    if chw > u32::MAX as u128 {
        return None;
    }
    let charge = (chw as u32) as i32;
    let (name, p4) = match dec_chars(w, p2 + 1) {
        Some(v) => v,
        None => {
            return None;
        },
    };
    if p4 != wlen {
        return None;
    }
    Some(Molecule { n_atoms, atomic_num: nums, charge, name })
}

/// Decodes a volume cube from bytes; trailing bytes are refused.
pub fn decode_cube(b: &[u8]) -> (r: Option<VolumeCube>)
    ensures
        r is Some <==> spec_dec_cube(b@) is Some,
        r is Some ==> r->0@ == spec_dec_cube(b@)->0,
{
    let words = match bytes_to_words(b) {
        Some(ws) => ws,
        None => {
            return None;
        },
    };
    let wlen = words.len();
    let w = words.as_slice();
    let (comment1, p1) = match dec_chars(w, 0) {
        Some(v) => v,
        None => {
            return None;
        },
    };
    let (comment2, p2) = match dec_chars(w, p1) {
        Some(v) => v,
        None => {
            return None;
        },
    };
    let (origin, p3) = match dec_reals(w, p2) {
        Some(v) => v,
        None => {
            return None;
        },
    };
    let (steps_number, p4) = match dec_i32s(w, p3) {
        Some(v) => v,
        None => {
            return None;
        },
    };
    let (steps_size, p5) = match dec_real_rows(w, p4) {
        Some(v) => v,
        None => {
            return None;
        },
    };
    let (cube_data, p6) = match dec_real_grid(w, p5) {
        Some(v) => v,
        None => {
            return None;
        },
    };
    if p6 != wlen {
        return None;
    }
    let out = VolumeCube {
        comment1,
        comment2,
        box_origin: origin,
        steps_number,
        steps_size,
        cube_data,
    };
    proof {
        let gc = rd_cube(words@, 0)->0;
        assert(out@.steps_size =~~= gc.0.steps_size);
        assert(out@.cube_data =~~= gc.0.cube_data);
    }
    Some(out)
}

} // verus!
