//! Byte-level helpers shared by the packet codecs: little-endian `i32`
//! fields, substring search, and the bridge between raw bytes and text.

use vstd::prelude::*;
use vstd::bytes::{spec_u32_from_le_bytes, spec_u32_to_le_bytes, u32_from_le_bytes, u32_to_le_bytes, lemma_auto_spec_u32_to_from_le_bytes};
use vstd::utf8::{decode_utf8, valid_utf8};

verus! {

/// The four little-endian bytes of a signed 32-bit wire field.
pub open spec fn spec_i32_le(n: i32) -> Seq<u8> {
    spec_u32_to_le_bytes(n as u32)
}

/// The signed 32-bit value read from four little-endian bytes.
pub open spec fn spec_i32_of_le(s: Seq<u8>) -> i32
    recommends
        s.len() == 4,
{
    spec_u32_from_le_bytes(s) as i32
}

/// Reading back the four bytes of a field yields the value that was written.
pub proof fn lemma_i32_le_round_trip(n: i32)
    ensures
        spec_i32_of_le(spec_i32_le(n)) == n,
        spec_i32_le(n).len() == 4,
{
    lemma_auto_spec_u32_to_from_le_bytes();
    assert((n as u32) as i32 == n) by (bit_vector);
}

/// Appends the little-endian encoding of `n` to `buf`.
pub fn append_i32_le(buf: &mut Vec<u8>, n: i32)
    ensures
        final(buf)@ == old(buf)@ + spec_i32_le(n),
{
    let bytes = u32_to_le_bytes(n as u32);
    append_bytes(buf, bytes.as_slice());
}

/// Reads a signed 32-bit value from a four-byte buffer.
pub fn i32_of_le_vec(v: &Vec<u8>) -> (n: i32)
    requires
        v@.len() == 4,
    ensures
        n == spec_i32_of_le(v@),
{
    u32_from_le_bytes(v.as_slice()) as i32
}

/// Appends every byte of `other` to `buf`, in order.
pub fn append_bytes(buf: &mut Vec<u8>, other: &[u8])
    ensures
        final(buf)@ == old(buf)@ + other@,
{
    let mut i: usize = 0;
    while i < other.len()
        invariant
            i <= other@.len(),
            buf@ == old(buf)@ + other@.take(i as int),
        decreases other@.len() - i,
    {
        let b = other[i];
        buf.push(b);
        i = i + 1;
        proof {
            assert(old(buf)@ + other@.take(i as int) =~= (old(buf)@ + other@.take(
                i - 1,
            )).push(other@[i - 1]));
        }
    }
    proof {
        assert(other@.take(other@.len() as int) =~= other@);
    }
}

/// True when `n` occurs as a contiguous run inside `h` starting at `i`.
pub open spec fn spec_contains_at(h: Seq<u8>, n: Seq<u8>, i: int) -> bool {
    &&& 0 <= i
    &&& i + n.len() <= h.len()
    &&& h.subrange(i, i + n.len()) == n
}

/// True when `n` occurs as a contiguous run anywhere inside `h`.
pub open spec fn spec_bytes_contains(h: Seq<u8>, n: Seq<u8>) -> bool {
    exists|i: int| spec_contains_at(h, n, i)
}

/// Substring search over raw bytes.
pub fn bytes_contains(h: &[u8], n: &[u8]) -> (r: bool)
    ensures
        r == spec_bytes_contains(h@, n@),
{
    if n.len() > h.len() {
        proof {
            assert(forall|i: int| !spec_contains_at(h@, n@, i));
        }
        return false;
    }
    let mut i: usize = 0;
    while i <= h.len() - n.len()
        invariant
            n@.len() <= h@.len(),
            h@.len() <= usize::MAX,
            i <= h@.len() - n@.len() + 1,
            forall|j: int| 0 <= j < i ==> !spec_contains_at(h@, n@, j),
        decreases h@.len() - n@.len() + 1 - i,
    {
        let mut k: usize = 0;
        let mut matched = true;
        proof {
            assert(h@.subrange(i as int, i as int) =~= n@.take(0));
        }
        while k < n.len()
            invariant
                n@.len() <= h@.len(),
                h@.len() <= usize::MAX,
                i + n@.len() <= h@.len(),
                k <= n@.len(),
                matched <==> h@.subrange(i as int, i + k) == n@.take(k as int),
            decreases n@.len() - k,
        {
            proof {
                if matched {
                    assert(h@.subrange(i as int, i + (k + 1)) =~= h@.subrange(
                        i as int,
                        i + k,
                    ).push(h@[i + k]));
                    assert(n@.take(k + 1) =~= n@.take(k as int).push(n@[k as int]));
                } else {
                    assert(h@.subrange(i as int, i + (k + 1)).take(k as int) =~= h@.subrange(
                        i as int,
                        i + k,
                    ));
                    assert(n@.take(k + 1).take(k as int) =~= n@.take(k as int));
                }
            }
            if h[i + k] != n[k] {
                matched = false;
                proof {
                    assert(h@.subrange(i as int, i + (k + 1))[k as int] == h@[i + k]);
                    assert(n@.take(k + 1)[k as int] == n@[k as int]);
                }
            }
            k = k + 1;
        }
        proof {
            assert(n@.take(n@.len() as int) =~= n@);
        }
        if matched {
            proof {
                assert(spec_contains_at(h@, n@, i as int));
            }
            return true;
        }
        proof {
            assert(!spec_contains_at(h@, n@, i as int));
        }
        i = i + 1;
    }
    proof {
        assert(forall|j: int| j >= i ==> !spec_contains_at(h@, n@, j));
    }
    false
}

/// Relies on `String::from_utf8` from std: it succeeds exactly on valid
/// UTF-8 input, and then yields the characters that the bytes encode, as
/// specified by `vstd::utf8`.
#[verifier::external_body]
pub fn bytes_to_string(v: Vec<u8>) -> (r: Option<String>)
    ensures
        r is Some <==> valid_utf8(v@),
        r is Some ==> r->0@ == decode_utf8(v@),
{
    match String::from_utf8(v) {
        Ok(s) => Some(s),
        Err(_) => None,
    }
}

} // verus!
