//! Wire primitives for the message payloads: little-endian integers and
//! length-prefixed UTF-8 strings, with exact byte-level specifications.

use vstd::prelude::*;
use vstd::utf8::{decode_utf8, encode_utf8, valid_utf8};
use vstd::arithmetic::div_mod::lemma_fundamental_div_mod;

verus! {

/// 256 to the power `n`: the number of values `n` bytes can hold.
pub open spec fn pow256(n: nat) -> nat
    decreases n,
{
    if n == 0 {
        1
    } else {
        256 * pow256((n - 1) as nat)
    }
}

/// The `n` little-endian base-256 digits of `v`.
pub open spec fn le_bytes(v: nat, n: nat) -> Seq<u8>
    decreases n,
{
    if n == 0 {
        Seq::empty()
    } else {
        seq![(v % 256) as u8] + le_bytes(v / 256, (n - 1) as nat)
    }
}

/// The value of a little-endian base-256 digit sequence.
pub open spec fn from_le(s: Seq<u8>) -> nat
    decreases s.len(),
{
    if s.len() == 0 {
        0
    } else {
        (s[0] as nat) + 256 * from_le(s.drop_first())
    }
}

/// A digit sequence's value is below the power its length allows.
pub proof fn lemma_from_le_bound(s: Seq<u8>)
    ensures
        from_le(s) < pow256(s.len()),
    decreases s.len(),
{
    if s.len() == 0 {
    } else {
        lemma_from_le_bound(s.drop_first());
        assert(256 * from_le(s.drop_first()) <= 256 * (pow256((s.len() - 1) as nat) - 1))
            by (nonlinear_arith)
            requires from_le(s.drop_first()) <= pow256((s.len() - 1) as nat) - 1;
    }
}

/// Encoding then decoding a bounded value gives it back.
pub proof fn lemma_le_round_trip(v: nat, n: nat)
    requires
        v < pow256(n),
    ensures
        le_bytes(v, n).len() == n,
        from_le(le_bytes(v, n)) == v,
    decreases n,
{
    if n == 0 {
    } else {
        lemma_fundamental_div_mod(v as int, 256);
        assert(v / 256 < pow256((n - 1) as nat)) by (nonlinear_arith)
            requires
                (v < 256 * pow256((n - 1) as nat)) && (v == 256 * (v / 256) + v % 256) && (0 <= v
                    % 256);
        lemma_le_round_trip(v / 256, (n - 1) as nat);
        assert(le_bytes(v, n).drop_first() =~= le_bytes(v / 256, (n - 1) as nat));
    }
}

/// The unsigned carrier of a signed 64-bit value: two's complement.
pub open spec fn i64_as_nat(v: int) -> nat {
    if v >= 0 {
        v as nat
    } else {
        (v + 0x1_0000_0000_0000_0000) as nat
    }
}

/// The signed reading of an unsigned 64-bit carrier.
pub open spec fn nat_as_i64(u: nat) -> int {
    if u < 0x8000_0000_0000_0000 {
        u as int
    } else {
        u - 0x1_0000_0000_0000_0000
    }
}

/// The two-byte little-endian encoding of a 16-bit value.
pub open spec fn enc_u16(v: u16) -> Seq<u8> {
    le_bytes(v as nat, 2)
}

/// The eight-byte little-endian encoding of a 64-bit value.
pub open spec fn enc_u64(v: u64) -> Seq<u8> {
    le_bytes(v as nat, 8)
}

/// The eight-byte encoding of a signed 64-bit value, via two's complement.
pub open spec fn enc_i64(v: int) -> Seq<u8> {
    le_bytes(i64_as_nat(v), 8)
}

/// The length-prefixed UTF-8 encoding of a string: two bytes of byte count,
/// then the bytes.
pub open spec fn enc_str(s: Seq<char>) -> Seq<u8> {
    le_bytes(encode_utf8(s).len(), 2) + encode_utf8(s)
}

/// Reads a 16-bit value at `pos`; fails when fewer than two bytes remain.
pub open spec fn parse_u16(b: Seq<u8>, pos: int) -> Option<(u16, int)> {
    if 0 <= pos && pos + 2 <= b.len() {
        Some(((from_le(b.subrange(pos, pos + 2)) % 0x10000) as u16, pos + 2))
    } else {
        None
    }
}

/// Reads a 64-bit value at `pos`; fails when fewer than eight bytes remain.
pub open spec fn parse_u64(b: Seq<u8>, pos: int) -> Option<(u64, int)> {
    if 0 <= pos && pos + 8 <= b.len() {
        Some(
            ((from_le(b.subrange(pos, pos + 8)) % 0x1_0000_0000_0000_0000) as u64, pos + 8),
        )
    } else {
        None
    }
}

/// Reads a signed 64-bit value at `pos`.
pub open spec fn parse_i64(b: Seq<u8>, pos: int) -> Option<(int, int)> {
    match parse_u64(b, pos) {
        Some((u, np)) => Some((nat_as_i64(u as nat), np)),
        None => None,
    }
}

/// Reads a length-prefixed UTF-8 string at `pos`; fails when the declared
/// bytes are not all there or are not valid UTF-8.
pub open spec fn parse_str(b: Seq<u8>, pos: int) -> Option<(Seq<char>, int)> {
    match parse_u16(b, pos) {
        Some((len, p2)) => if p2 + len <= b.len() && valid_utf8(
            b.subrange(p2, p2 + len),
        ) {
            Some((decode_utf8(b.subrange(p2, p2 + len)), p2 + len))
        } else {
            None
        },
        None => None,
    }
}

/// An encoding always has exactly the requested number of digits.
pub proof fn lemma_le_bytes_len(v: nat, n: nat)
    ensures
        le_bytes(v, n).len() == n,
    decreases n,
{
    if n > 0 {
        lemma_le_bytes_len(v / 256, (n - 1) as nat);
    }
}

/// A part of a byte sequence found inside a matching window of a buffer is
/// found at its offset in the buffer.
pub proof fn lemma_sub_sub(b: Seq<u8>, pos: int, whole: Seq<u8>, off: int, part: Seq<u8>)
    requires
        0 <= pos,
        pos + whole.len() <= b.len(),
        b.subrange(pos, pos + whole.len()) == whole,
        0 <= off,
        off + part.len() <= whole.len(),
        whole.subrange(off, off + part.len()) == part,
    ensures
        b.subrange(pos + off, pos + off + part.len()) == part,
{
    assert forall|i: int|
        0 <= i < part.len() implies #[trigger] b.subrange(
        pos + off,
        pos + off + part.len(),
    )[i] == part[i] by {
        assert(b.subrange(pos + off, pos + off + part.len())[i] == b[pos + off + i]);
        assert(b.subrange(pos, pos + whole.len())[off + i] == b[pos + off + i]);
        assert(whole.subrange(off, off + part.len())[i] == whole[off + i]);
    }
    assert(b.subrange(pos + off, pos + off + part.len()) =~= part);
}

/// A buffer that holds the encoding of a 16-bit value parses back to it.
pub proof fn lemma_parse_u16_prefix(b: Seq<u8>, pos: int, v: u16)
    requires
        0 <= pos,
        pos + 2 <= b.len(),
        b.subrange(pos, pos + 2) == enc_u16(v),
    ensures
        parse_u16(b, pos) == Some((v, pos + 2)),
{
    assert(pow256(2) == 0x10000) by {
        reveal_with_fuel(pow256, 3);
    }
    lemma_le_round_trip(v as nat, 2);
    vstd::arithmetic::div_mod::lemma_small_mod(v as nat, 0x10000);
}

/// A buffer that holds the encoding of a 64-bit value parses back to it.
pub proof fn lemma_parse_u64_prefix(b: Seq<u8>, pos: int, v: u64)
    requires
        0 <= pos,
        pos + 8 <= b.len(),
        b.subrange(pos, pos + 8) == enc_u64(v),
    ensures
        parse_u64(b, pos) == Some((v, pos + 8)),
{
    assert(pow256(8) == 0x1_0000_0000_0000_0000) by {
        reveal_with_fuel(pow256, 9);
    }
    lemma_le_round_trip(v as nat, 8);
    vstd::arithmetic::div_mod::lemma_small_mod(v as nat, 0x1_0000_0000_0000_0000);
}

/// A buffer that holds the encoding of a signed value parses back to it.
pub proof fn lemma_parse_i64_prefix(b: Seq<u8>, pos: int, v: int)
    requires
        0 <= pos,
        pos + 8 <= b.len(),
        -0x8000_0000_0000_0000 <= v < 0x8000_0000_0000_0000,
        b.subrange(pos, pos + 8) == enc_i64(v),
    ensures
        parse_i64(b, pos) == Some((v, pos + 8)),
{
    let u = i64_as_nat(v);
    assert(pow256(8) == 0x1_0000_0000_0000_0000) by {
        reveal_with_fuel(pow256, 9);
    }
    lemma_parse_u64_prefix(b, pos, u as u64);
    assert(nat_as_i64(u) == v);
}

/// A buffer that holds the encoding of a string parses back to it.
pub proof fn lemma_parse_str_prefix(b: Seq<u8>, pos: int, s: Seq<char>)
    requires
        0 <= pos,
        encode_utf8(s).len() <= 65535,
        pos + enc_str(s).len() <= b.len(),
        b.subrange(pos, pos + enc_str(s).len()) == enc_str(s),
    ensures
        parse_str(b, pos) == Some((s, pos + enc_str(s).len())),
        enc_str(s).len() == 2 + encode_utf8(s).len(),
{
    let eb = encode_utf8(s);
    let n = eb.len() as int;
    assert(pow256(2) == 0x10000) by {
        reveal_with_fuel(pow256, 3);
    }
    lemma_le_round_trip(eb.len(), 2);
    assert(enc_str(s).len() == 2 + n);
    assert(b.subrange(pos, pos + 2) =~= le_bytes(eb.len(), 2)) by {
        assert(forall|i: int|
            0 <= i < 2 ==> #[trigger] b.subrange(pos, pos + enc_str(s).len())[i] == enc_str(
                s,
            )[i]);
    }
    assert(b.subrange(pos, pos + 2) == enc_u16((eb.len() as u16))) by {
        assert((eb.len() as u16) as nat == eb.len());
    }
    lemma_parse_u16_prefix(b, pos, eb.len() as u16);
    let p2 = pos + 2;
    assert forall|i: int| 0 <= i < n implies #[trigger] b.subrange(p2, p2 + n)[i] == eb[i] by {
        assert(b.subrange(p2, p2 + n)[i] == b[p2 + i]);
        assert(b.subrange(pos, pos + enc_str(s).len())[2 + i] == b[pos + 2 + i]);
        assert(enc_str(s)[2 + i] == eb[i]);
    }
    assert(b.subrange(p2, p2 + n) =~= eb);
    vstd::utf8::encode_utf8_valid_utf8(s);
    vstd::utf8::encode_utf8_decode_utf8(s);
}

/// Appends one byte.
pub fn push_u8(out: &mut Vec<u8>, v: u8)
    ensures
        final(out)@ == old(out)@.push(v),
{
    out.push(v);
}

/// Reads one byte.
pub fn read_u8(b: &Vec<u8>, pos: usize) -> (r: Option<(u8, usize)>)
    ensures
        match r {
            Some(v) => pos + 1 <= b@.len() && v.0 == b@[pos as int] && (v.1 as int) == pos + 1,
            None => pos + 1 > b@.len(),
        },
{
    if pos < b.len() {
        Some((b[pos], pos + 1))
    } else {
        None
    }
}

/// Appends the two-byte little-endian form of `v`.
pub fn push_u16(out: &mut Vec<u8>, v: u16)
    ensures
        final(out)@ == old(out)@ + enc_u16(v),
{
    out.push((v % 256) as u8);
    out.push(((v / 256) % 256) as u8);
    proof {
        reveal_with_fuel(le_bytes, 3);
        assert(le_bytes((v / 256) as nat, 1) =~= seq![((v as nat / 256) % 256) as u8]);
        assert(enc_u16(v) =~= seq![(v % 256) as u8, ((v / 256) % 256) as u8]);
        assert(final(out)@ =~= old(out)@ + enc_u16(v));
    }
}

/// Appends the eight-byte little-endian form of `v`.
pub fn push_u64(out: &mut Vec<u8>, v: u64)
    ensures
        final(out)@ == old(out)@ + enc_u64(v),
{
    let ghost base = out@;
    let mut x: u64 = v;
    let mut i: usize = 0;
    proof {
        assert(base + le_bytes(v as nat, 8) =~= out@ + le_bytes(x as nat, 8));
    }
    while i < 8
        invariant
            i <= 8,
            out@.len() == base.len() + i,
            out@ + le_bytes(x as nat, (8 - i) as nat) == base + le_bytes(v as nat, 8),
        decreases 8 - i,
    {
        let ghost before = out@;
        let ghost x_old = x;
        out.push((x % 256) as u8);
        x = x / 256;
        proof {
            let n_rem = (8 - i) as nat;
            assert(le_bytes(x_old as nat, n_rem) == seq![(x_old as nat % 256) as u8] + le_bytes(
                x_old as nat / 256,
                (n_rem - 1) as nat,
            ));
            assert(out@ + le_bytes(x as nat, (8 - i - 1) as nat) =~= before + le_bytes(
                x_old as nat,
                n_rem,
            ));
        }
        i += 1;
    }
    proof {
        assert(le_bytes(x as nat, 0) =~= Seq::<u8>::empty());
        assert(out@ + le_bytes(x as nat, 0) =~= out@);
        assert(final(out)@ =~= base + enc_u64(v));
    }
}

/// Powers of 256 do not shrink as the exponent grows.
proof fn lemma_pow256_le(a: nat, b: nat)
    requires
        a <= b,
    ensures
        pow256(a) <= pow256(b),
    decreases b,
{
    if a < b {
        lemma_pow256_le(a, (b - 1) as nat);
        assert(pow256(b) == 256 * pow256((b - 1) as nat));
        assert(pow256((b - 1) as nat) <= 256 * pow256((b - 1) as nat)) by (nonlinear_arith)
            requires pow256((b - 1) as nat) >= 0;
    }
}

/// Reads `n` little-endian bytes at `pos` into one value; `n` is at most 8.
fn read_le(b: &Vec<u8>, pos: usize, n: usize) -> (r: Option<(u64, usize)>)
    requires
        n <= 8,
    ensures
        pos + n <= b@.len() ==> (r == Some(
            (
                (from_le(b@.subrange(pos as int, pos + n)) % 0x1_0000_0000_0000_0000) as u64,
                (pos + n) as usize,
            ),
        ) && ((r->0).0 as nat) == from_le(b@.subrange(pos as int, pos + n)) && ((r->0).0 as nat)
            < pow256(n as nat) && ((r->0).1 as int) == pos + n),
        pos + n > b@.len() ==> r is None,
{
    let blen = b.len();
    if pos > blen || blen - pos < n {
        return None;
    }
    let mut x: u64 = 0;
    let mut i: usize = 0;
    proof {
        assert(b@.subrange(pos + n, pos + n) =~= Seq::<u8>::empty());
    }
    while i < n
        invariant
            i <= n,
            n <= 8,
            blen == b@.len(),
            pos + n <= blen,
            x as nat == from_le(b@.subrange(pos + n - i, pos + n)),
            x < pow256(i as nat),
        decreases n - i,
    {
        let ghost x_old = x;
        proof {
            lemma_pow256_le(i as nat, 7);
            reveal_with_fuel(pow256, 9);
            assert(pow256(7) == 0x100_0000_0000_0000);
        }
        x = x * 256 + (b[pos + (n - 1 - i)] as u64);
        proof {
            let j = pos + (n - 1 - i);
            assert(b@.subrange(j as int, pos + n).drop_first() =~= b@.subrange(
                j + 1,
                pos + n,
            ));
            assert(from_le(b@.subrange(j as int, pos + n)) == b@[j as int] + 256 * from_le(
                b@.subrange(j + 1, pos + n),
            ));
            lemma_from_le_bound(b@.subrange(j as int, pos + n));
            assert(b@.subrange(j as int, pos + n).len() == i + 1);
        }
        i += 1;
    }
    proof {
        lemma_pow256_le(n as nat, 8);
        reveal_with_fuel(pow256, 9);
        assert(pow256(8) == 0x1_0000_0000_0000_0000);
        vstd::arithmetic::div_mod::lemma_small_mod(x as nat, 0x1_0000_0000_0000_0000);
    }
    Some((x, pos + n))
}

/// Reads a 16-bit value at `pos`.
pub fn read_u16(b: &Vec<u8>, pos: usize) -> (r: Option<(u16, usize)>)
    ensures
        match r {
            Some(v) => parse_u16(b@, pos as int) == Some((v.0, v.1 as int)),
            None => parse_u16(b@, pos as int) is None,
        },
{
    match read_le(b, pos, 2) {
        Some((x, np)) => {
            proof {
                reveal_with_fuel(pow256, 3);
                vstd::arithmetic::div_mod::lemma_small_mod(x as nat, 0x10000);
            }
            Some((x as u16, np))
        },
        None => None,
    }
}

/// Reads a 64-bit value at `pos`.
pub fn read_u64(b: &Vec<u8>, pos: usize) -> (r: Option<(u64, usize)>)
    ensures
        match r {
            Some(v) => parse_u64(b@, pos as int) == Some((v.0, v.1 as int)),
            None => parse_u64(b@, pos as int) is None,
        },
{
    match read_le(b, pos, 8) {
        Some((x, np)) => Some((x, np)),
        None => None,
    }
}

/// Appends the eight-byte two's-complement form of `v`.
pub fn push_i64(out: &mut Vec<u8>, v: i64)
    ensures
        final(out)@ == old(out)@ + enc_i64(v as int),
{
    let u: u64 = if v >= 0 {
        v as u64
    } else {
        let m: u64 = (-(v + 1)) as u64;
        u64::MAX - m
    };
    proof {
        assert(u as nat == i64_as_nat(v as int));
    }
    push_u64(out, u);
}

/// Reads a signed 64-bit value at `pos`.
pub fn read_i64(b: &Vec<u8>, pos: usize) -> (r: Option<(i64, usize)>)
    ensures
        match r {
            Some(v) => parse_i64(b@, pos as int) == Some((v.0 as int, v.1 as int)),
            None => parse_i64(b@, pos as int) is None,
        },
{
    match read_u64(b, pos) {
        Some((u, np)) => {
            let v: i64 = if u < 0x8000_0000_0000_0000 {
                u as i64
            } else {
                -((u64::MAX - u) as i64) - 1
            };
            proof {
                assert(v as int == nat_as_i64(u as nat));
            }
            Some((v, np))
        },
        None => None,
    }
}

/// Appends a byte slice.
pub fn push_bytes(out: &mut Vec<u8>, s: &[u8])
    ensures
        final(out)@ == old(out)@ + s@,
{
    let ghost base = out@;
    let mut i: usize = 0;
    proof {
        assert(base + s@.take(0) =~= base);
    }
    while i < s.len()
        invariant
            i <= s@.len(),
            out@ == base + s@.take(i as int),
        decreases s@.len() - i,
    {
        out.push(s[i]);
        proof {
            assert(base + s@.take(i + 1) =~= (base + s@.take(i as int)).push(s@[i as int]));
        }
        i += 1;
    }
    proof {
        assert(s@.take(s@.len() as int) =~= s@);
    }
}

/// Appends the length-prefixed UTF-8 form of `s`; the byte length must fit
/// the two-byte prefix.
pub fn push_str(out: &mut Vec<u8>, s: &str)
    requires
        encode_utf8(s@).len() <= 65535,
    ensures
        final(out)@ == old(out)@ + enc_str(s@),
{
    let bs: &[u8] = s.as_bytes();
    push_u16(out, bs.len() as u16);
    push_bytes(out, bs);
    proof {
        assert(final(out)@ =~= old(out)@ + enc_str(s@));
    }
}

/// Relies on String::from_utf8: it succeeds exactly on valid UTF-8 and
/// returns the string those bytes encode.
#[verifier::external_body]
fn bytes_to_string(bytes: Vec<u8>) -> (r: Option<String>)
    ensures
        match r {
            Some(s) => valid_utf8(bytes@) && s@ == decode_utf8(bytes@),
            None => !valid_utf8(bytes@),
        },
{
    String::from_utf8(bytes).ok()
}

/// Reads a length-prefixed UTF-8 string at `pos`.
pub fn read_str(b: &Vec<u8>, pos: usize) -> (r: Option<(String, usize)>)
    ensures
        match r {
            Some(v) => parse_str(b@, pos as int) == Some((v.0@, v.1 as int)),
            None => parse_str(b@, pos as int) is None,
        },
{
    match read_u16(b, pos) {
        Some((len, p2)) => {
            let len_us: usize = len as usize;
            let blen = b.len();
            if blen < p2 || blen - p2 < len_us {
                return None;
            }
            let mut seg: Vec<u8> = Vec::new();
            let mut i: usize = 0;
            proof {
                assert(seg@ =~= b@.subrange(p2 as int, p2 as int));
            }
            while i < len_us
                invariant
                    i <= len_us,
                    blen == b@.len(),
                    p2 + len_us <= blen,
                    seg@ == b@.subrange(p2 as int, p2 + i),
                decreases len_us - i,
            {
                seg.push(b[p2 + i]);
                proof {
                    assert(b@.subrange(p2 as int, p2 + i + 1) =~= b@.subrange(
                        p2 as int,
                        p2 + i,
                    ).push(b@[p2 + i]));
                }
                i += 1;
            }
            match bytes_to_string(seg) {
                Some(s) => Some((s, p2 + len_us)),
                None => None,
            }
        },
        None => None,
    }
}

} // verus!
