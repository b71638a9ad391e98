//! Little-endian base-128 variable-length integers, the primitive of the
//! wire format: seven value bits per byte, the high bit set on every byte
//! except the last. The encoding is minimal — the last byte of a multi-byte
//! encoding is never zero — so every `u64` has exactly one encoding, and at
//! any position of a byte string at most one value's encoding starts there.

use vstd::prelude::*;

verus! {

/// The unique encoding of `v`.
pub open spec fn spec_varint(v: u64) -> Seq<u8>
    decreases v,
{
    if v < 0x80 {
        seq![v as u8]
    } else {
        seq![((v % 0x80) + 0x80) as u8] + spec_varint((v / 0x80) as u64)
    }
}

/// The encoding of `v` occupies `s[pos ..]` as a prefix.
pub open spec fn varint_at(s: Seq<u8>, pos: int, v: u64) -> bool {
    &&& 0 <= pos
    &&& pos + spec_varint(v).len() <= s.len()
    &&& s.subrange(pos, pos + spec_varint(v).len()) == spec_varint(v)
}

pub proof fn lemma_varint_len_min(v: u64)
    ensures
        1 <= spec_varint(v).len(),
    decreases v,
{
    if v >= 0x80 {
        lemma_varint_len_min((v / 0x80) as u64);
    }
}

/// A value below 2^32 encodes in at most five bytes.
pub proof fn lemma_varint_len32(v: u64)
    requires
        v < 0x1_0000_0000,
    ensures
        1 <= spec_varint(v).len() <= 5,
{
    lemma_varint_len_min(v);
    assert(pow128(0) == 1);
    assert(pow128(1) == 0x80);
    assert(pow128(2) == 0x4000);
    assert(pow128(3) == 0x20_0000);
    assert(pow128(4) == 0x1000_0000);
    assert(pow128(5) == 0x8_0000_0000);
    lemma_varint_len_le(v, 5);
}

spec fn pow128(n: nat) -> int
    decreases n,
{
    if n == 0 {
        1
    } else {
        pow128((n - 1) as nat) * 0x80
    }
}

proof fn lemma_varint_len_le(v: u64, n: nat)
    requires
        1 <= n,
        v < pow128(n),
    ensures
        spec_varint(v).len() <= n,
    decreases n,
{
    if v >= 0x80 {
        let p = pow128((n - 1) as nat);
        assert(pow128(n) == p * 0x80);
        assert(p >= 1) by {
            lemma_pow128_pos((n - 1) as nat);
        }
        assert(n >= 2) by {
            if n == 1 {
                assert(pow128(1) == 0x80);
            }
        }
        assert(v / 0x80 < p) by (nonlinear_arith)
            requires
                v < p * 0x80,
                p >= 1,
        {
        }
        lemma_varint_len_le((v / 0x80) as u64, (n - 1) as nat);
    }
}

proof fn lemma_pow128_pos(n: nat)
    ensures
        pow128(n) >= 1,
    decreases n,
{
    if n > 0 {
        lemma_pow128_pos((n - 1) as nat);
    }
}

/// At a given position of a byte string, at most one value's
/// encoding starts there.
pub proof fn lemma_varint_at_unique(s: Seq<u8>, pos: int, v1: u64, v2: u64)
    requires
        varint_at(s, pos, v1),
        varint_at(s, pos, v2),
    ensures
        v1 == v2,
    decreases v1,
{
    lemma_varint_first_byte(s, pos, v1);
    lemma_varint_first_byte(s, pos, v2);
    if v1 < 0x80 && v2 < 0x80 {
        assert(s[pos] == v1 as u8 && s[pos] == v2 as u8);
    } else if v1 >= 0x80 && v2 >= 0x80 {
        lemma_varint_at_step(s, pos, v1);
        lemma_varint_at_step(s, pos, v2);
        lemma_varint_at_unique(s, pos + 1, (v1 / 0x80) as u64, (v2 / 0x80) as u64);
        assert(v1 % 0x80 == v2 % 0x80);
        assert(v1 == 0x80 * (v1 / 0x80) + v1 % 0x80);
        assert(v2 == 0x80 * (v2 / 0x80) + v2 % 0x80);
    } else {
        // one single-byte (first byte < 0x80), one multi-byte (first byte >= 0x80)
        assert(false);
    }
}

/// The first byte of an encoding determines whether it is single-byte.
proof fn lemma_varint_first_byte(s: Seq<u8>, pos: int, v: u64)
    requires
        varint_at(s, pos, v),
    ensures
        v < 0x80 ==> s[pos] == v as u8,
        v >= 0x80 ==> s[pos] == ((v % 0x80) + 0x80) as u8,
{
    assert(s.subrange(pos, pos + spec_varint(v).len())[0] == s[pos]);
}

/// Peeling the first byte off a multi-byte encoding leaves the encoding
/// of the remaining value.
pub proof fn lemma_varint_at_step(s: Seq<u8>, pos: int, v: u64)
    requires
        varint_at(s, pos, v),
        v >= 0x80,
    ensures
        s[pos] == ((v % 0x80) + 0x80) as u8,
        varint_at(s, pos + 1, (v / 0x80) as u64),
{
    let tail = spec_varint((v / 0x80) as u64);
    let whole = spec_varint(v);
    assert(whole == seq![((v % 0x80) + 0x80) as u8] + tail);
    assert(s.subrange(pos, pos + whole.len())[0] == s[pos]);
    assert(s.subrange(pos + 1, pos + 1 + tail.len()) =~= tail) by {
        assert forall|i: int| 0 <= i < tail.len() implies s.subrange(
            pos + 1,
            pos + 1 + tail.len(),
        )[i] == tail[i] by {
            assert(s.subrange(pos, pos + whole.len())[i + 1] == s[pos + 1 + i]);
            assert(whole[i + 1] == tail[i]);
        }
    }
}

/// The converse: a head byte followed by the encoding of `v / 0x80`
/// is the encoding of `v`.
pub proof fn lemma_varint_at_unstep(s: Seq<u8>, pos: int, v: u64)
    requires
        0 <= pos,
        pos + 1 <= s.len(),
        v >= 0x80,
        s[pos] == ((v % 0x80) + 0x80) as u8,
        varint_at(s, pos + 1, (v / 0x80) as u64),
    ensures
        varint_at(s, pos, v),
{
    let tail = spec_varint((v / 0x80) as u64);
    let whole = spec_varint(v);
    assert(whole == seq![((v % 0x80) + 0x80) as u8] + tail);
    assert(s.subrange(pos, pos + whole.len()) =~= whole) by {
        assert forall|i: int| 0 <= i < whole.len() implies s.subrange(
            pos,
            pos + whole.len(),
        )[i] == whole[i] by {
            if i >= 1 {
                assert(s.subrange(pos + 1, pos + 1 + tail.len())[i - 1] == s[pos + i]);
                assert(whole[i] == tail[i - 1]);
            }
        }
    }
}

/// Appends the encoding of `v` to `out`.
pub fn encode_varint(v: u64, out: &mut Vec<u8>)
    ensures
        final(out)@ == old(out)@ + spec_varint(v),
{
    let mut cur: u64 = v;
    while cur >= 0x80
        invariant
            out@ + spec_varint(cur) == old(out)@ + spec_varint(v),
        decreases cur,
    {
        let b: u8 = ((cur % 0x80) + 0x80) as u8;
        proof {
            assert(spec_varint(cur) == seq![b] + spec_varint((cur / 0x80) as u64));
            assert((out@ + seq![b]) + spec_varint((cur / 0x80) as u64) == out@ + (seq![b]
                + spec_varint((cur / 0x80) as u64)));
        }
        out.push(b);
        cur = cur / 0x80;
    }
    proof {
        assert(spec_varint(cur) == seq![cur as u8]);
    }
    out.push(cur as u8);
}

/// Reads one varint starting at `pos`. Returns the value and the position
/// just past it; `None` when no value's encoding starts at `pos` — the
/// bytes run out, a continuation is not minimal, or the value would not
/// fit in 64 bits.
pub fn parse_varint(bytes: &[u8], pos: usize) -> (r: Option<(u64, usize)>)
    requires
        pos <= bytes@.len(),
    ensures
        match r {
            Some(p) => pos < p.1 <= bytes@.len() && varint_at(bytes@, pos as int, p.0) && p.1 == pos
                + spec_varint(p.0).len(),
            None => forall|v: u64| !varint_at(bytes@, pos as int, v),
        },
    decreases bytes@.len() - pos,
{
    if pos >= bytes.len() {
        proof {
            assert forall|v: u64| !varint_at(bytes@, pos as int, v) by {
                lemma_varint_len_min(v);
            }
        }
        return None;
    }
    let b = bytes[pos];
    if b < 0x80 {
        proof {
            assert(spec_varint(b as u64) == seq![b]);
            assert(bytes@.subrange(pos as int, pos + 1) =~= seq![b]);
        }
        return Some((b as u64, pos + 1));
    }
    match parse_varint(bytes, pos + 1) {
        None => {
            proof {
                assert forall|v: u64| !varint_at(bytes@, pos as int, v) by {
                    if varint_at(bytes@, pos as int, v) {
                        lemma_varint_first_byte(bytes@, pos as int, v);
                        if v >= 0x80 {
                            lemma_varint_at_step(bytes@, pos as int, v);
                        }
                    }
                }
            }
            None
        },
        Some((rest, end)) => {
            let low: u64 = (b - 0x80) as u64;
            if rest == 0 || rest > (u64::MAX - low) / 0x80 {
                proof {
                    assert forall|v: u64| !varint_at(bytes@, pos as int, v) by {
                        if varint_at(bytes@, pos as int, v) {
                            lemma_varint_first_byte(bytes@, pos as int, v);
                            assert(v >= 0x80);
                            lemma_varint_at_step(bytes@, pos as int, v);
                            lemma_varint_at_unique(
                                bytes@,
                                pos + 1,
                                (v / 0x80) as u64,
                                rest,
                            );
                            assert(v / 0x80 == rest);
                            assert(v % 0x80 == low);
                            assert(v == 0x80 * rest + low);
                        }
                    }
                }
                None
            } else {
                let v: u64 = rest * 0x80 + low;
                proof {
                    assert(v / 0x80 == rest && v % 0x80 == low) by (nonlinear_arith)
                        requires
                            v == rest * 0x80 + low,
                            low < 0x80,
                    {
                    }
                    lemma_varint_at_unstep(bytes@, pos as int, v);
                }
                Some((v, end))
            }
        },
    }
}

} // verus!
