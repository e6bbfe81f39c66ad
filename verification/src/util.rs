//! Executable helpers over byte slices and borrowed strings.

use vstd::prelude::*;
use vstd::string::*;
use vstd::utf8::decode_utf8;
use vstd::utf8::decode_utf8_encode_utf8;
use vstd::utf8::encode_utf8_valid_utf8;
use vstd::utf8::encode_utf8_decode_utf8;
use vstd::utf8::valid_utf8;
use crate::model::be32;
use crate::model::be64;
use crate::model::find_nul;

verus! {

broadcast use vstd::slice::axiom_spec_len;

/// The length of a slice's view fits the machine word, as the length of
/// the slice itself does.
pub proof fn lemma_slice_len<T>(s: &[T])
    ensures
        s@.len() <= usize::MAX,
{
    assert(vstd::slice::spec_slice_len(s) == s@.len());
}

/// Reads the big-endian 32-bit word at offset `o` of `d`.
pub fn read_be32(d: &[u8], o: usize) -> (r: u32)
    requires
        o + 4 <= d@.len(),
    ensures
        r == be32(d@, o as int),
{
    let b0 = d[o] as u32;
    let b1 = d[o + 1] as u32;
    let b2 = d[o + 2] as u32;
    let b3 = d[o + 3] as u32;
    b0 * 0x1000000 + b1 * 0x10000 + b2 * 0x100 + b3
}

/// Reads the big-endian 64-bit word at offset `o` of `d`.
pub fn read_be64(d: &[u8], o: usize) -> (r: u64)
    requires
        o + 8 <= d@.len(),
    ensures
        r == be64(d@, o as int),
{
    proof {
        lemma_slice_len(d);
    }
    let hi = read_be32(d, o) as u64;
    let lo = read_be32(d, o + 4) as u64;
    hi * 0x100000000 + lo
}

/// Finds the first NUL byte of `d` at or after `o`; returns `d.len()`
/// when there is none.
pub fn find_nul_from(d: &[u8], o: usize) -> (r: usize)
    requires
        o <= d@.len(),
    ensures
        r == find_nul(d@, o as int),
{
    let mut i: usize = o;
    loop
        invariant
            o <= i <= d@.len(),
            find_nul(d@, o as int) == find_nul(d@, i as int),
        decreases d@.len() - i,
    {
        if i == d.len() {
            return i;
        }
        if d[i] == 0 {
            return i;
        }
        i = i + 1;
    }
}

/// Finds the first occurrence of byte `c` in `d` at or after `o`;
/// returns `d.len()` when there is none.
pub fn find_byte_from(d: &[u8], c: u8, o: usize) -> (r: usize)
    requires
        o <= d@.len(),
    ensures
        r == crate::model::find_byte(d@, c, o as int),
{
    let mut i: usize = o;
    loop
        invariant
            o <= i <= d@.len(),
            crate::model::find_byte(d@, c, o as int) == crate::model::find_byte(d@, c, i as int),
        decreases d@.len() - i,
    {
        if i == d.len() {
            return i;
        }
        if d[i] == c {
            return i;
        }
        i = i + 1;
    }
}

/// Compares two byte slices for equality of contents.
pub fn bytes_eq(a: &[u8], b: &[u8]) -> (r: bool)
    ensures
        r == (a@ == b@),
{
    if a.len() != b.len() {
        proof {
            assert(a@.len() != b@.len());
        }
        return false;
    }
    let mut i: usize = 0;
    loop
        invariant
            0 <= i <= a@.len(),
            a@.len() == b@.len(),
            forall|j: int| 0 <= j < i ==> a@[j] == b@[j],
        decreases a@.len() - i,
    {
        if i == a.len() {
            proof {
                assert(a@ =~= b@);
            }
            return true;
        }
        if a[i] != b[i] {
            return false;
        }
        i = i + 1;
    }
}

/// Compares two borrowed strings for equality, byte-wise; since UTF-8
/// encoding is injective this also decides equality of the views.
pub fn str_eq(a: &str, b: &str) -> (r: bool)
    ensures
        r == (a@ == b@),
        r == (a.spec_bytes() == b.spec_bytes()),
{
    proof {
        encode_utf8_decode_utf8(a@);
        encode_utf8_decode_utf8(b@);
    }
    bytes_eq(a.as_bytes(), b.as_bytes())
}

/// A UTF-8 encoding spends at most four bytes per character.
pub proof fn lemma_encode_utf8_len(chars: Seq<char>)
    ensures
        vstd::utf8::encode_utf8(chars).len() <= 4 * chars.len(),
    decreases chars.len(),
{
    if chars.len() > 0 {
        lemma_encode_utf8_len(chars.drop_first());
        vstd::utf8::char_is_scalar(chars[0]);
        assert(vstd::utf8::encode_scalar(chars[0] as u32).len() <= 4);
    }
}

/// An ASCII byte inside valid UTF-8 always sits on a character boundary.
pub proof fn lemma_ascii_is_boundary(b: Seq<u8>, i: int)
    requires
        vstd::utf8::valid_utf8(b),
        0 <= i <= b.len(),
        i < b.len() ==> b[i] < 0x80,
    ensures
        vstd::utf8::is_char_boundary(b, i),
{
    if i == b.len() {
        vstd::utf8::is_char_boundary_start_end_of_seq(b);
    } else {
        vstd::utf8::is_char_boundary_iff_not_is_continuation_byte(b, i);
    }
}

/// Right after a leading ASCII byte of valid UTF-8 a new character
/// starts.
pub proof fn lemma_boundary_after_ascii(b: Seq<u8>)
    requires
        vstd::utf8::valid_utf8(b),
        b.len() >= 1,
        b[0] < 0x80,
    ensures
        vstd::utf8::is_char_boundary(b, 1),
{
    if b.len() == 1 {
        vstd::utf8::is_char_boundary_start_end_of_seq(b);
    } else {
        assert(vstd::utf8::length_of_first_scalar(b) == 1);
        reveal_with_fuel(vstd::utf8::is_char_boundary, 2);
    }
}

/// The `k`-th slash-separated segment of `path`, if the path has that
/// many segments.
pub fn path_segment<'a>(path: &'a str, k: usize) -> (r: Option<&'a str>)
    ensures
        match r {
            Some(t) => k < crate::model::split_slash(path.spec_bytes()).len() && t.spec_bytes()
                == crate::model::split_slash(path.spec_bytes())[k as int],
            None => k >= crate::model::split_slash(path.spec_bytes()).len(),
        },
{
    let ghost whole = crate::model::split_slash(path.spec_bytes());
    let mut rem: &'a str = path;
    let mut c: usize = 0;
    loop
        invariant
            0 <= c <= k,
            c <= whole.len(),
            whole.skip(c as int) == crate::model::split_slash(rem.spec_bytes()),
        decreases k - c,
    {
        let ghost rb = rem.spec_bytes();
        proof {
            encode_utf8_valid_utf8(rem@);
        }
        let b = rem.as_bytes();
        let i = find_byte_from(b, crate::model::PATH_SEP, 0);
        proof {
            crate::model::lemma_find_byte(rb, crate::model::PATH_SEP, 0);
            lemma_ascii_is_boundary(rb, i as int);
            assert(crate::model::split_slash(rb).len() >= 1);
        }
        if c == k {
            let (seg, _rest) = rem.split_at(i);
            proof {
                assert(seg.spec_bytes() =~= rb.take(i as int));
                assert(crate::model::split_slash(rb)[0] == rb.take(i as int));
            }
            return Some(seg);
        }
        if i == b.len() {
            proof {
                assert(crate::model::split_slash(rb).len() == 1);
            }
            return None;
        }
        let (_seg, rest0) = rem.split_at(i);
        let ghost r0 = rest0.spec_bytes();
        proof {
            vstd::utf8::valid_utf8_split(rb, i as int);
            assert(r0 =~= rb.subrange(i as int, rb.len() as int));
            lemma_boundary_after_ascii(r0);
        }
        let (_sep, rest) = rest0.split_at(1);
        proof {
            assert(rest.spec_bytes() =~= rb.skip(i as int + 1));
            assert(whole.skip(c as int).drop_first() =~= whole.skip(c as int + 1));
        }
        rem = rest;
        c = c + 1;
    }
}

/// Relies on `core::str::from_utf8`: it returns `Ok` exactly on bytes
/// that are valid UTF-8, and the `Ok` string slice views those bytes.
#[verifier::external_body]
pub fn bytes_to_str_checked<'a>(v: &'a [u8]) -> (r: Option<&'a str>)
    ensures
        r is Some <==> valid_utf8(v@),
        r matches Some(t) ==> t.spec_bytes() == v@,
{
    core::str::from_utf8(v).ok()
}

/// Converts bytes already known to be valid UTF-8 into a string slice.
pub fn bytes_to_str<'a>(v: &'a [u8]) -> (r: &'a str)
    requires
        valid_utf8(v@),
    ensures
        r.spec_bytes() == v@,
{
    match bytes_to_str_checked(v) {
        Some(t) => t,
        None => vstd::pervasive::unreached(),
    }
}

/// A string slice viewing valid UTF-8 bytes decodes exactly to the
/// character sequence those bytes encode.
pub proof fn lemma_str_bytes_view(t: &str, v: Seq<u8>)
    requires
        valid_utf8(v),
        t.spec_bytes() == v,
    ensures
        t@ == decode_utf8(v),
{
    encode_utf8_decode_utf8(t@);
    decode_utf8_encode_utf8(v);
}

} // verus!
