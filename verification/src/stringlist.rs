//! A borrowed view over NUL-separated string lists.

use vstd::prelude::*;
use vstd::string::*;
use vstd::utf8::encode_utf8_valid_utf8;
use vstd::utf8::is_char_boundary;
use vstd::utf8::is_char_boundary_iff_not_is_continuation_byte;
use vstd::utf8::is_char_boundary_start_end_of_seq;
use vstd::utf8::valid_utf8;
use vstd::utf8::valid_utf8_split;
use crate::error::Error;
use crate::model::lemma_find_nul;
use crate::model::split_nul;
use crate::util::bytes_to_str_checked;
use crate::util::find_nul_from;
use crate::util::str_eq;

verus! {

/// A view over bytes holding a sequence of NUL-terminated strings, such
/// as the value of a `compatible` property.
#[derive(Debug, Clone, Copy)]
pub struct StringList<'a> {
    pub raw: &'a str,
}

impl<'a> StringList<'a> {
    /// Checks the bytes for UTF-8 validity and wraps them; any ill-formed
    /// byte is a decode error.
    pub fn from_utf8(data: &'a [u8]) -> (r: Result<StringList<'a>, Error>)
        ensures
            match r {
                Ok(sl) => valid_utf8(data@) && sl.raw.spec_bytes() == data@,
                Err(e) => !valid_utf8(data@) && e == Error::BadValue,
            },
    {
        match bytes_to_str_checked(data) {
            Some(t) => Ok(StringList { raw: t }),
            None => Err(Error::BadValue),
        }
    }

    /// An iterator over the NUL-separated pieces; a piece a terminating
    /// NUL would leave empty is suppressed.
    pub fn strings(&self) -> (r: Strings<'a>)
        ensures
            r.rem == self.raw,
    {
        Strings { rem: self.raw }
    }

    /// Whether any piece of the list equals `key`.
    pub fn contains(&self, key: &str) -> (r: bool)
        ensures
            r == split_nul(self.raw.spec_bytes()).contains(key.spec_bytes()),
    {
        let ghost whole = split_nul(self.raw.spec_bytes());
        let mut it = self.strings();
        let ghost mut seen: int = 0;
        loop
            invariant
                0 <= seen <= whole.len(),
                split_nul(it.rem.spec_bytes()) == whole.skip(seen),
                forall|j: int| 0 <= j < seen ==> whole[j] != key.spec_bytes(),
            decreases whole.len() - seen,
        {
            match it.next() {
                Some(piece) => {
                    proof {
                        assert(piece.spec_bytes() == whole[seen]);
                        assert(whole.skip(seen).drop_first() =~= whole.skip(seen + 1));
                    }
                    if str_eq(piece, key) {
                        return true;
                    }
                    proof {
                        seen = seen + 1;
                    }
                },
                None => {
                    proof {
                        if whole.contains(key.spec_bytes()) {
                            let j = choose|j: int|
                                0 <= j < whole.len() && whole[j] == key.spec_bytes();
                            assert(whole[j] != key.spec_bytes());
                        }
                    }
                    return false;
                },
            }
        }
    }
}

/// The iterator over the pieces of a [`StringList`].
#[derive(Debug, Clone, Copy)]
pub struct Strings<'a> {
    pub rem: &'a str,
}

impl<'a> Strings<'a> {
    /// Yields the piece before the next NUL, or the whole remainder when
    /// no NUL is left; an empty remainder ends the iteration.
    pub fn next(&mut self) -> (r: Option<&'a str>)
        ensures
            match r {
                Some(t) => {
                    &&& split_nul(old(self).rem.spec_bytes()).len() > 0
                    &&& t.spec_bytes() == split_nul(old(self).rem.spec_bytes())[0]
                    &&& split_nul(final(self).rem.spec_bytes()) == split_nul(
                        old(self).rem.spec_bytes(),
                    ).drop_first()
                },
                None => split_nul(old(self).rem.spec_bytes()).len() == 0,
            },
    {
        let ghost b = self.rem.spec_bytes();
        proof {
            encode_utf8_valid_utf8(self.rem@);
            lemma_find_nul(b, 0);
        }
        let bytes = self.rem.as_bytes();
        if bytes.len() == 0 {
            return None;
        }
        let i = find_nul_from(bytes, 0);
        proof {
            if (i as int) < b.len() {
                is_char_boundary_iff_not_is_continuation_byte(b, i as int);
            } else {
                is_char_boundary_start_end_of_seq(b);
            }
        }
        let (piece, rest0) = self.rem.split_at(i);
        if i == bytes.len() {
            self.rem = rest0;
            proof {
                assert(piece.spec_bytes() =~= b);
                assert(rest0.spec_bytes() =~= Seq::<u8>::empty());
                assert(split_nul(b) == seq![b]);
                assert(split_nul(b).drop_first() =~= Seq::<Seq<u8>>::empty());
            }
            return Some(piece);
        }
        let ghost rb = rest0.spec_bytes();
        proof {
            valid_utf8_split(b, i as int);
            assert(rb =~= b.subrange(i as int, b.len() as int));
            assert(rb[0] == 0);
            assert(is_char_boundary(rb, 1)) by {
                if rb.len() == 1 {
                    is_char_boundary_start_end_of_seq(rb);
                } else {
                    assert(vstd::utf8::length_of_first_scalar(rb) == 1);
                    reveal_with_fuel(vstd::utf8::is_char_boundary, 2);
                }
            }
        }
        let (_term, rest) = rest0.split_at(1);
        self.rem = rest;
        proof {
            assert(piece.spec_bytes() =~= b.take(i as int));
            assert(rest.spec_bytes() =~= b.skip(i as int + 1));
            assert(split_nul(b) == seq![b.take(i as int)] + split_nul(b.skip(i as int + 1)));
            assert(split_nul(b).drop_first() =~= split_nul(b.skip(i as int + 1)));
        }
        Some(piece)
    }
}

} // verus!
