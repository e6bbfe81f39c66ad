//! Properties of a node and the iterators over them.

use vstd::prelude::*;
use vstd::string::StringSliceAdditionalSpecFns;
use vstd::utf8::valid_utf8;
use crate::blob::StructReader;
use crate::blob::Token;
use crate::error::Error;
use crate::model::FDT_NOP;
use crate::model::FDT_PROP;
use crate::model::SpecProp;
use crate::model::be32;
use crate::model::lemma_filter_head;
use crate::model::lemma_props_skip_nops;
use crate::model::lemma_skip_nops;
use crate::model::skip_nops;
use crate::model::spec_props;
use crate::model::wf_props;
use crate::stringlist::StringList;
use crate::util::read_be32;
use crate::util::str_eq;

verus! {

/// One property of a node: a name borrowed from the strings block and a
/// value borrowed from the structure block.
#[derive(Debug, Clone, Copy)]
pub struct Property<'a> {
    pub name: &'a str,
    pub value: &'a [u8],
}

impl<'a> Property<'a> {
    /// The property's name.
    pub fn name(&self) -> (r: &'a str)
        ensures
            r == self.name,
    {
        self.name
    }

    /// The property's raw value bytes.
    pub fn raw(&self) -> (r: &'a [u8])
        ensures
            r == self.value,
    {
        self.value
    }

    /// The big-endian word at the start of the value; values shorter than
    /// four bytes are a decode error.
    pub fn as_u32(&self) -> (r: Result<u32, Error>)
        ensures
            match r {
                Ok(v) => self.value@.len() >= 4 && v == be32(self.value@, 0),
                Err(e) => self.value@.len() < 4 && e == Error::BadValue,
            },
    {
        if self.value.len() < 4 {
            Err(Error::BadValue)
        } else {
            Ok(read_be32(self.value, 0))
        }
    }

    /// The value read as UTF-8; ill-formed UTF-8 is a decode error.
    pub fn as_str(&self) -> (r: Result<&'a str, Error>)
        ensures
            match r {
                Ok(t) => valid_utf8(self.value@) && t.spec_bytes() == self.value@,
                Err(e) => !valid_utf8(self.value@) && e == Error::BadValue,
            },
    {
        match crate::util::bytes_to_str_checked(self.value) {
            Some(t) => Ok(t),
            None => Err(Error::BadValue),
        }
    }

    /// The value read as a NUL-separated string list; ill-formed UTF-8 is
    /// a decode error.
    pub fn as_stringlist(&self) -> (r: Result<StringList<'a>, Error>)
        ensures
            match r {
                Ok(sl) => valid_utf8(self.value@) && sl.raw.spec_bytes() == self.value@,
                Err(e) => !valid_utf8(self.value@) && e == Error::BadValue,
            },
    {
        StringList::from_utf8(self.value)
    }

    /// Decodes the value at the type the caller picks.
    pub fn parse<I: PropertyValue<'a>>(&self) -> (r: Result<I, Error>)
        ensures
            match r {
                Ok(v) => I::decodes_to(self.value@, v),
                Err(e) => I::decode_fails(self.value@) && e == Error::BadValue,
            },
    {
        I::from_raw(self.value)
    }

    /// Compares a typed value against the raw bytes under the capability
    /// of that value's type.
    pub fn is_equal<I: IsValue>(&self, other: I) -> (r: bool)
        requires
            I::can_cmp(self.value@),
        ensures
            r == other.matches_value(self.value@),
    {
        other.is_value(self.value)
    }
}

/// A type a property value can be decoded into.
pub trait PropertyValue<'a>: Sized {
    /// When `v` is what the raw bytes decode to.
    spec fn decodes_to(raw: Seq<u8>, v: Self) -> bool;

    /// When decoding the raw bytes fails.
    spec fn decode_fails(raw: Seq<u8>) -> bool;

    /// Decodes the raw bytes, or reports a decode error.
    fn from_raw(raw: &'a [u8]) -> (r: Result<Self, Error>)
        ensures
            match r {
                Ok(v) => Self::decodes_to(raw@, v),
                Err(e) => Self::decode_fails(raw@) && e == Error::BadValue,
            },
    ;
}

impl<'a> PropertyValue<'a> for u32 {
    /// A big-endian word read from the first four bytes.
    open spec fn decodes_to(raw: Seq<u8>, v: Self) -> bool {
        raw.len() >= 4 && v == be32(raw, 0)
    }

    /// Fewer than four bytes cannot decode.
    open spec fn decode_fails(raw: Seq<u8>) -> bool {
        raw.len() < 4
    }

    fn from_raw(raw: &'a [u8]) -> (r: Result<Self, Error>) {
        if raw.len() < 4 {
            Err(Error::BadValue)
        } else {
            Ok(read_be32(raw, 0))
        }
    }
}

impl<'a> PropertyValue<'a> for &'a str {
    /// The bytes read whole as UTF-8.
    open spec fn decodes_to(raw: Seq<u8>, v: Self) -> bool {
        valid_utf8(raw) && v.spec_bytes() == raw
    }

    /// Bytes that are not valid UTF-8 cannot decode.
    open spec fn decode_fails(raw: Seq<u8>) -> bool {
        !valid_utf8(raw)
    }

    fn from_raw(raw: &'a [u8]) -> (r: Result<Self, Error>) {
        match crate::util::bytes_to_str_checked(raw) {
            Some(t) => Ok(t),
            None => Err(Error::BadValue),
        }
    }
}

/// A type whose values can be compared against raw property bytes.
pub trait IsValue: Sized {
    /// When the raw bytes are long enough to compare against.
    spec fn can_cmp(raw: Seq<u8>) -> bool;

    /// When this value equals what the raw bytes hold.
    spec fn matches_value(&self, raw: Seq<u8>) -> bool;

    /// Compares this value against the raw bytes.
    fn is_value(&self, raw: &[u8]) -> (r: bool)
        requires
            Self::can_cmp(raw@),
        ensures
            r == self.matches_value(raw@),
    ;
}

impl IsValue for u32 {
    /// A word needs four bytes to compare against.
    open spec fn can_cmp(raw: Seq<u8>) -> bool {
        raw.len() >= 4
    }

    /// Equality with the big-endian word at the start of the bytes.
    open spec fn matches_value(&self, raw: Seq<u8>) -> bool {
        *self == be32(raw, 0)
    }

    fn is_value(&self, raw: &[u8]) -> (r: bool) {
        *self == read_be32(raw, 0)
    }
}

/// An iterator over the property records at a cursor; it ends at the
/// first token that is not a property.
#[derive(Clone, Copy)]
pub struct Properties<'buf> {
    pub blob: StructReader<'buf>,
}

impl<'buf> Properties<'buf> {
    /// Wraps a structure-block cursor positioned on a property run.
    pub fn new(blob: StructReader<'buf>) -> (r: Properties<'buf>)
        ensures
            r.blob == blob,
    {
        Properties { blob }
    }
}

/// An iterator over properties, with its combinators.
pub trait PropertyIterator<'buf>: Sized {
    /// The iterator can keep reading where it stands.
    spec fn pwf(&self) -> bool;

    /// The property records the iterator will still yield.
    spec fn upcoming(&self) -> Seq<SpecProp>;

    /// Yields the next property, or nothing when the run is over.
    fn next(&mut self) -> (r: Option<Property<'buf>>)
        requires
            old(self).pwf(),
        ensures
            match r {
                Some(p) => {
                    &&& old(self).upcoming().len() > 0
                    &&& p.name.spec_bytes() == old(self).upcoming()[0].name
                    &&& p.value@ == old(self).upcoming()[0].value
                    &&& final(self).pwf()
                    &&& final(self).upcoming() == old(self).upcoming().drop_first()
                },
                None => old(self).upcoming().len() == 0,
            },
    ;

    /// Restricts the iterator to properties with exactly the given name.
    fn with_name<'name>(self, name: &'name str) -> (r: WithName<'name, Self>)
        ensures
            r == (WithName { iter: self, name }),
    {
        WithName { iter: self, name }
    }
}

impl<'buf> PropertyIterator<'buf> for Properties<'buf> {
    /// The cursor stands on a well-formed property run.
    open spec fn pwf(&self) -> bool {
        wf_props(self.blob.d@, self.blob.s@, self.blob.o as int)
    }

    /// The records of the run ahead of the cursor.
    open spec fn upcoming(&self) -> Seq<SpecProp> {
        spec_props(self.blob.d@, self.blob.s@, self.blob.o as int)
    }

    fn next(&mut self) -> (r: Option<Property<'buf>>) {
        let ghost d = self.blob.d@;
        let ghost s = self.blob.s@;
        let ghost o0 = self.blob.o as int;
        proof {
            lemma_props_skip_nops(d, s, o0);
            lemma_skip_nops(d, o0);
            crate::util::lemma_slice_len(self.blob.s);
        }
        let ghost at = skip_nops(d, o0);
        let t = self.blob.token();
        match t {
            Token::Prop => {
                assert(be32(d, at) == FDT_PROP);
                let len = self.blob.read_u32() as usize;
                let name = self.blob.string_ref();
                let value = self.blob.slice(len);
                proof {
                    crate::util::lemma_slice_len(self.blob.d);
                    assert(crate::model::align4(at + 12 + len as int) <= d.len());
                }
                self.blob.align(4);
                proof {
                    crate::model::lemma_align4(at + 12 + len);
                    assert(self.upcoming() =~= old(self).upcoming().drop_first());
                }
                Some(Property { name, value })
            },
            _ => {
                assert(be32(d, at) != FDT_PROP && be32(d, at) != FDT_NOP);
                None
            },
        }
    }
}

/// A lazy filter keeping the properties whose name equals a given one.
#[derive(Clone, Copy, Debug)]
pub struct WithName<'name, I> {
    pub iter: I,
    pub name: &'name str,
}

impl<'buf, 'name, I: PropertyIterator<'buf>> PropertyIterator<'buf> for WithName<'name, I> {
    /// The upstream iterator can keep reading.
    open spec fn pwf(&self) -> bool {
        self.iter.pwf()
    }

    /// The upstream records whose name matches.
    open spec fn upcoming(&self) -> Seq<SpecProp> {
        self.iter.upcoming().filter(|p: SpecProp| p.name == self.name.spec_bytes())
    }

    fn next(&mut self) -> (r: Option<Property<'buf>>) {
        let ghost pred = |p: SpecProp| p.name == self.name.spec_bytes();
        proof {
            assert(self.pwf());
            assert(self.iter.pwf());
        }
        loop
            invariant
                self.name == old(self).name,
                self.iter.pwf(),
                self.iter.upcoming().filter(pred) == old(self).upcoming(),
            decreases self.iter.upcoming().len(),
        {
            let ghost up = self.iter.upcoming();
            match self.iter.next() {
                Some(p) => {
                    proof {
                        lemma_filter_head(up, pred);
                    }
                    if str_eq(p.name, self.name) {
                        return Some(p);
                    }
                },
                None => {
                    return None;
                },
            }
        }
    }
}

} // verus!
