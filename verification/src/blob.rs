//! The blob and the cursors over its blocks.

use vstd::prelude::*;
use vstd::slice::slice_subrange;
use vstd::string::StringSliceAdditionalSpecFns;
use vstd::utf8::valid_utf8;
use crate::error::Error;
use crate::header::Header;
use crate::header::HEADER_V1_SIZE;
use crate::header::MAGIC;
use crate::model::FDT_BEGIN_NODE;
use crate::model::FDT_END;
use crate::model::FDT_END_NODE;
use crate::model::FDT_NOP;
use crate::model::FDT_PROP;
use crate::model::align_up;
use crate::model::be32;
use crate::model::be64;
use crate::model::find_nul;
use crate::model::lemma_align4;
use crate::model::lemma_find_nul;
use crate::model::lemma_props_skip_nops;
use crate::model::lemma_skip_nops;
use crate::model::skip_nops;
use crate::model::spec_skip_props;
use crate::model::wf_props;
use crate::util::bytes_to_str;
use crate::util::lemma_slice_len;
use crate::util::find_nul_from;
use crate::util::read_be32;
use crate::util::read_be64;

verus! {

broadcast use vstd::slice::axiom_spec_len;

/// The lowest device-tree version this library can read.
pub const MIN_COMPAT_VERSION: u32 = 1;

/// The highest device-tree version this library can read.
pub const MAX_COMPAT_VERSION: u32 = 17;

/// A validated borrow of the bytes of a whole flattened device tree.
#[derive(Clone, Copy, Debug)]
pub struct Blob<'buf> {
    pub raw: &'buf [u8],
}

impl<'buf> Blob<'buf> {
    /// The buffer covers its header, the magic and version fields check
    /// out, and the buffer is exactly as long as the header declares.
    pub open spec fn wf(&self) -> bool {
        &&& self.raw@.len() >= HEADER_V1_SIZE
        &&& be32(self.raw@, 0) == MAGIC
        &&& MIN_COMPAT_VERSION <= be32(self.raw@, 24) <= MAX_COMPAT_VERSION
        &&& self.raw@.len() == be32(self.raw@, 4)
    }

    /// Builds a blob over the first `totalsize` bytes of `buf`, after
    /// validating the header.  Fails with `Truncated` when the buffer
    /// cannot hold the header or the declared total size, and with
    /// `BadMagic` or `BadVersion` as header validation does.
    pub fn from_bytes(buf: &'buf [u8]) -> (r: Result<Blob<'buf>, Error>)
        ensures
            match r {
                Ok(b) => {
                    &&& b.wf()
                    &&& buf@.len() >= HEADER_V1_SIZE
                    &&& be32(buf@, 4) <= buf@.len()
                    &&& b.raw@ == buf@.subrange(0, be32(buf@, 4) as int)
                },
                Err(e) => if buf@.len() < HEADER_V1_SIZE {
                    e == Error::Truncated
                } else if be32(buf@, 0) != MAGIC {
                    e == Error::BadMagic(be32(buf@, 0))
                } else if !(MIN_COMPAT_VERSION <= be32(buf@, 24) <= MAX_COMPAT_VERSION) {
                    e == Error::BadVersion(be32(buf@, 24))
                } else {
                    !(HEADER_V1_SIZE <= be32(buf@, 4) <= buf@.len()) && e == Error::Truncated
                },
            },
    {
        if buf.len() < HEADER_V1_SIZE {
            return Err(Error::Truncated);
        }
        let th = match Header::new(buf).validate() {
            Ok(h) => h,
            Err(e) => {
                return Err(e);
            },
        };
        let total = th.totalsize() as usize;
        if total < HEADER_V1_SIZE || total > buf.len() {
            return Err(Error::Truncated);
        }
        Ok(Blob { raw: slice_subrange(buf, 0, total) })
    }

    /// The typed view of the header bytes.
    pub fn header(&self) -> (h: Header<'buf>)
        ensures
            h.raw == self.raw,
    {
        Header::new(self.raw)
    }

    /// A cursor at offset 0 of the structure block, carrying the strings
    /// block alongside for name lookups.
    pub fn nodes(&self) -> (r: StructReader<'buf>)
        requires
            self.wf(),
            be32(self.raw@, 8) <= self.raw@.len(),
            be32(self.raw@, 12) <= self.raw@.len(),
        ensures
            r.d@ == self.raw@.subrange(be32(self.raw@, 8) as int, self.raw@.len() as int),
            r.s@ == self.raw@.subrange(be32(self.raw@, 12) as int, self.raw@.len() as int),
            r.o == 0,
    {
        let o = self.header().off_dt_struct() as usize;
        let s = self.header().off_dt_strings() as usize;
        StructReader {
            d: slice_subrange(self.raw, o, self.raw.len()),
            s: slice_subrange(self.raw, s, self.raw.len()),
            o: 0,
        }
    }

    /// Sanity checks the header fields of this blob, as construction
    /// does.
    pub fn validate(&self) -> (r: Result<(), Error>)
        requires
            self.raw@.len() >= HEADER_V1_SIZE,
        ensures
            match r {
                Ok(_) => be32(self.raw@, 0) == MAGIC && MIN_COMPAT_VERSION <= be32(self.raw@, 24)
                    <= MAX_COMPAT_VERSION,
                Err(e) => if be32(self.raw@, 0) != MAGIC {
                    e == Error::BadMagic(be32(self.raw@, 0))
                } else {
                    !(MIN_COMPAT_VERSION <= be32(self.raw@, 24) <= MAX_COMPAT_VERSION) && e
                        == Error::BadVersion(be32(self.raw@, 24))
                },
            },
    {
        match self.header().validate() {
            Ok(_) => Ok(()),
            Err(e) => Err(e),
        }
    }

    /// The NUL-terminated string at byte offset `string_offset` of the
    /// strings block, or nothing when the offset lies outside the block
    /// or the bytes there are not UTF-8.
    pub fn string(&self, string_offset: usize) -> (r: Option<&'buf str>)
        requires
            self.wf(),
            be32(self.raw@, 12) <= self.raw@.len(),
        ensures
            ({
                let s = self.raw@.subrange(be32(self.raw@, 12) as int, self.raw@.len() as int);
                if string_offset <= s.len() && valid_utf8(
                    s.subrange(string_offset as int, find_nul(s, string_offset as int)),
                ) {
                    r matches Some(t) && t.spec_bytes() == s.subrange(
                        string_offset as int,
                        find_nul(s, string_offset as int),
                    )
                } else {
                    r is None
                }
            }),
    {
        let soff = self.header().off_dt_strings() as usize;
        let strings = slice_subrange(self.raw, soff, self.raw.len());
        if string_offset > strings.len() {
            return None;
        }
        proof {
            lemma_find_nul(strings@, string_offset as int);
        }
        let e = find_nul_from(strings, string_offset);
        crate::util::bytes_to_str_checked(slice_subrange(strings, string_offset, e))
    }

    /// A cursor at the start of the memory reservation block.
    pub fn rsvmap(&self) -> (r: RsvMapReader<'buf>)
        requires
            self.wf(),
            be32(self.raw@, 16) <= self.raw@.len(),
        ensures
            r.d@ == self.raw@.subrange(be32(self.raw@, 16) as int, self.raw@.len() as int),
            r.o == 0,
    {
        let o = self.header().off_mem_rsvmap() as usize;
        RsvMapReader { d: slice_subrange(self.raw, o, self.raw.len()), o: 0 }
    }
}

/// One classified token of the structure block.
#[derive(Clone, Copy, Debug)]
pub enum Token {
    BeginNode,
    EndNode,
    Prop,
    End,
    Error(u32),
}

/// The classification of a raw token word.
pub open spec fn token_of(w: u32) -> Token {
    if w == FDT_BEGIN_NODE {
        Token::BeginNode
    } else if w == FDT_END_NODE {
        Token::EndNode
    } else if w == FDT_PROP {
        Token::Prop
    } else if w == FDT_END {
        Token::End
    } else {
        Token::Error(w)
    }
}

/// A position-tracked reader over the structure block, with the strings
/// block alongside.
#[derive(Clone, Copy, Debug)]
pub struct StructReader<'blob> {
    pub d: &'blob [u8],
    pub s: &'blob [u8],
    pub o: usize,
}

impl<'blob> StructReader<'blob> {
    /// The current offset within the structure block.
    pub fn offs(&self) -> (r: usize)
        ensures
            r == self.o,
    {
        self.o
    }

    /// Advances over any `FDT_NOP` tokens, then reads and classifies one
    /// token word, leaving the cursor just past it.
    pub fn token(&mut self) -> (t: Token)
        requires
            skip_nops(old(self).d@, old(self).o as int) + 4 <= old(self).d@.len(),
        ensures
            final(self).d == old(self).d,
            final(self).s == old(self).s,
            final(self).o == skip_nops(old(self).d@, old(self).o as int) + 4,
            t == token_of(be32(old(self).d@, skip_nops(old(self).d@, old(self).o as int))),
    {
        let ghost d = self.d@;
        let ghost o0 = self.o as int;
        proof {
            lemma_slice_len(self.d);
            lemma_skip_nops(d, o0);
        }
        loop
            invariant
                self.d == old(self).d,
                self.s == old(self).s,
                self.d@ == d,
                self.o <= skip_nops(d, o0),
                skip_nops(d, self.o as int) == skip_nops(d, o0),
                skip_nops(d, o0) + 4 <= d.len(),
                d.len() <= usize::MAX,
            decreases d.len() - self.o,
        {
            proof {
                lemma_skip_nops(d, self.o as int);
            }
            let at = self.o;
            let w = read_be32(self.d, at);
            self.o = at + 4;
            if w == FDT_NOP {
                proof {
                    lemma_skip_nops(d, at + 4);
                }
            } else if w == FDT_BEGIN_NODE {
                return Token::BeginNode;
            } else if w == FDT_END_NODE {
                return Token::EndNode;
            } else if w == FDT_PROP {
                return Token::Prop;
            } else if w == FDT_END {
                return Token::End;
            } else {
                return Token::Error(w);
            }
        }
    }

    /// Advances by `bytes` without reading.
    pub fn skip(&mut self, bytes: usize)
        requires
            old(self).o + bytes <= usize::MAX,
        ensures
            final(self).d == old(self).d,
            final(self).s == old(self).s,
            final(self).o == old(self).o + bytes,
    {
        self.o = self.o + bytes;
    }

    /// Reads the big-endian word at the cursor and advances past it.
    pub fn read_u32(&mut self) -> (r: u32)
        requires
            old(self).o + 4 <= old(self).d@.len(),
        ensures
            final(self).d == old(self).d,
            final(self).s == old(self).s,
            final(self).o == old(self).o + 4,
            r == be32(old(self).d@, old(self).o as int),
    {
        proof {
            lemma_slice_len(self.d);
        }
        let o = self.o;
        self.o = o + 4;
        read_be32(self.d, o)
    }

    /// Rounds the cursor up to the next multiple of `align`.
    pub fn align(&mut self, align: usize)
        requires
            align >= 1,
            align_up(old(self).o as int, align as int) <= usize::MAX,
        ensures
            final(self).d == old(self).d,
            final(self).s == old(self).s,
            final(self).o == align_up(old(self).o as int, align as int),
    {
        let rem = self.o % align;
        if rem != 0 {
            proof {
                crate::model::lemma_align_up_offset(self.o as int, align as int);
            }
            self.o = self.o + (align - rem);
        } else {
            proof {
                crate::model::lemma_align_up_multiple(self.o as int, align as int);
            }
        }
    }

    /// Reads the NUL-terminated name at the cursor and advances past the
    /// terminator; a missing terminator extends the name to the end of
    /// the block.
    pub fn string(&mut self) -> (r: &'blob str)
        requires
            old(self).o <= old(self).d@.len(),
            find_nul(old(self).d@, old(self).o as int) + 1 <= usize::MAX,
            valid_utf8(
                old(self).d@.subrange(
                    old(self).o as int,
                    find_nul(old(self).d@, old(self).o as int),
                ),
            ),
        ensures
            final(self).d == old(self).d,
            final(self).s == old(self).s,
            final(self).o == find_nul(old(self).d@, old(self).o as int) + 1,
            r.spec_bytes() == old(self).d@.subrange(
                old(self).o as int,
                find_nul(old(self).d@, old(self).o as int),
            ),
    {
        proof {
            lemma_find_nul(self.d@, self.o as int);
        }
        let d = self.d;
        let e = find_nul_from(d, self.o);
        let name = slice_subrange(d, self.o, e);
        self.o = e + 1;
        bytes_to_str(name)
    }

    /// Reads a strings-block offset at the cursor and resolves it to the
    /// NUL-terminated name it selects there.
    pub fn string_ref(&mut self) -> (r: &'blob str)
        requires
            old(self).o + 4 <= old(self).d@.len(),
            be32(old(self).d@, old(self).o as int) as int <= old(self).s@.len(),
            valid_utf8(
                old(self).s@.subrange(
                    be32(old(self).d@, old(self).o as int) as int,
                    find_nul(old(self).s@, be32(old(self).d@, old(self).o as int) as int),
                ),
            ),
        ensures
            final(self).d == old(self).d,
            final(self).s == old(self).s,
            final(self).o == old(self).o + 4,
            r.spec_bytes() == old(self).s@.subrange(
                be32(old(self).d@, old(self).o as int) as int,
                find_nul(old(self).s@, be32(old(self).d@, old(self).o as int) as int),
            ),
    {
        let noff = self.read_u32() as usize;
        proof {
            lemma_find_nul(self.s@, noff as int);
        }
        let s = self.s;
        let e = find_nul_from(s, noff);
        bytes_to_str(slice_subrange(s, noff, e))
    }

    /// Steps over the whole run of property records at the cursor and
    /// leaves the cursor on the first token that is not a property.
    pub fn skip_props(&mut self)
        requires
            wf_props(old(self).d@, old(self).s@, old(self).o as int),
        ensures
            final(self).d == old(self).d,
            final(self).s == old(self).s,
            final(self).o == spec_skip_props(old(self).d@, old(self).o as int),
    {
        let ghost d = self.d@;
        let ghost s = self.s@;
        proof {
            lemma_slice_len(self.d);
        }
        loop
            invariant
                self.d == old(self).d,
                self.s == old(self).s,
                wf_props(d, s, self.o as int),
                spec_skip_props(d, self.o as int) == spec_skip_props(d, old(self).o as int),
            decreases d.len() - self.o,
        {
            let ghost cur = self.o as int;
            proof {
                lemma_props_skip_nops(d, s, cur);
                lemma_skip_nops(d, cur);
            }
            let ghost at = skip_nops(d, cur);
            let t = self.token();
            match t {
                Token::Prop => {
                    assert(be32(d, at) == FDT_PROP);
                    let len = self.read_u32();
                    assert(at + 12 + len <= d.len());
                    self.skip(4 + len as usize);
                    proof {
                        lemma_align4(self.o as int);
                    }
                    self.align(4);
                    assert(self.o == crate::model::align4(at + 12 + len));
                },
                _ => {
                    assert(be32(d, at) != FDT_PROP && be32(d, at) != FDT_NOP);
                    assert(spec_skip_props(d, at) == at);
                    self.o = self.o - 4;
                    return ;
                },
            }
        }
    }

    /// Borrows the next `len` bytes and advances past them.
    pub fn slice(&mut self, len: usize) -> (r: &'blob [u8])
        requires
            old(self).o + len <= old(self).d@.len(),
        ensures
            final(self).d == old(self).d,
            final(self).s == old(self).s,
            final(self).o == old(self).o + len,
            r@ == old(self).d@.subrange(old(self).o as int, old(self).o + len),
    {
        proof {
            lemma_slice_len(self.d);
        }
        let d = self.d;
        let o = self.o;
        self.o = o + len;
        slice_subrange(d, o, o + len)
    }
}

/// A position-tracked reader over the memory reservation block.
#[derive(Clone, Copy, Debug)]
pub struct RsvMapReader<'blob> {
    pub d: &'blob [u8],
    pub o: usize,
}

impl<'blob> RsvMapReader<'blob> {
    /// Reads the big-endian 64-bit word at the cursor and advances past
    /// it.
    pub fn read_u64(&mut self) -> (r: u64)
        requires
            old(self).o + 8 <= old(self).d@.len(),
        ensures
            final(self).d == old(self).d,
            final(self).o == old(self).o + 8,
            r == be64(old(self).d@, old(self).o as int),
    {
        proof {
            lemma_slice_len(self.d);
        }
        let o = self.o;
        self.o = o + 8;
        read_be64(self.d, o)
    }
}

} // verus!
