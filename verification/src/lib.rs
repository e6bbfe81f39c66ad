//! A read-only parser for flattened device trees (FDT, also known as
//! DTB): the binary hardware description firmware hands to an early-boot
//! kernel.  The parser borrows a single in-memory buffer, copies
//! nothing, and exposes the tree as lazy, position-tracked traversals
//! whose behaviour is specified against a byte-level model of the
//! format.
#![verifier::loop_isolation(false)]
use vstd::prelude::*;

pub mod blob;
pub mod error;
pub mod header;
pub mod memory_reserve_map;
pub mod model;
pub mod node;
pub mod property;
pub mod stringlist;
pub mod util;

use vstd::string::StringSliceAdditionalSpecFns;
use vstd::utf8::valid_utf8;
use crate::blob::Blob;
use crate::blob::MAX_COMPAT_VERSION;
use crate::blob::MIN_COMPAT_VERSION;
use crate::error::Error;
use crate::header::HEADER_V1_SIZE;
use crate::header::MAGIC;
use crate::memory_reserve_map::MemoryReserveMap;
use crate::model::be32;
use crate::model::find_nul;
use crate::model::first_prop;
use crate::model::lemma_find_nul;
use crate::model::lemma_split_slash_len;
use crate::model::lemma_split_slash_nonempty;
use crate::model::spec_nodes;
use crate::model::spec_props;
use crate::model::split_slash;
use crate::model::take_above;
use crate::model::wf_rsv;
use crate::model::wf_stream;
use crate::model::wp_next;
use crate::node::Node;
use crate::node::Subnodes;
use crate::util::find_nul_from;
use crate::util::lemma_ascii_is_boundary;
use crate::util::lemma_encode_utf8_len;
use crate::util::lemma_slice_len;

verus! {

pub use crate::node::NodeIterator;
pub use crate::property::IsValue;
pub use crate::property::PropertyIterator;
pub use crate::property::PropertyValue;

/// A whole buffer is a well-formed flattened device tree: the header
/// checks out and declares exactly the buffer's length, the three block
/// offsets stay inside the buffer, the structure block carries one
/// properly closed root node, and the reservation block carries its
/// sentinel.
pub open spec fn wf_fdt_bytes(b: Seq<u8>) -> bool {
    &&& b.len() >= HEADER_V1_SIZE
    &&& be32(b, 0) == MAGIC
    &&& MIN_COMPAT_VERSION <= be32(b, 24) <= MAX_COMPAT_VERSION
    &&& be32(b, 4) == b.len()
    &&& be32(b, 8) <= b.len()
    &&& be32(b, 12) <= b.len()
    &&& be32(b, 16) <= b.len()
    &&& wf_stream(
        b.subrange(be32(b, 8) as int, b.len() as int),
        b.subrange(be32(b, 12) as int, b.len() as int),
        0,
        0,
    )
    &&& wf_rsv(b.subrange(be32(b, 16) as int, b.len() as int), 0)
}

/// An interface for parsing a flattened device tree out of an in-memory
/// buffer; read-only and free of allocation.
#[derive(Clone, Copy, Debug)]
pub struct FDT<'buf> {
    pub blob: Blob<'buf>,
}

impl<'buf> FDT<'buf> {
    /// The underlying blob passed validation.
    pub open spec fn wf(&self) -> bool {
        self.blob.wf()
    }

    /// The bytes of the whole blob.
    pub open spec fn raw(&self) -> Seq<u8> {
        self.blob.raw@
    }

    /// The bytes of the structure block, running to the end of the blob.
    pub open spec fn sblock(&self) -> Seq<u8> {
        self.raw().subrange(be32(self.raw(), 8) as int, self.raw().len() as int)
    }

    /// The bytes of the strings block, running to the end of the blob.
    pub open spec fn strblock(&self) -> Seq<u8> {
        self.raw().subrange(be32(self.raw(), 12) as int, self.raw().len() as int)
    }

    /// The structure-block and strings-block offsets stay inside the
    /// blob.
    pub open spec fn blocks_ok(&self) -> bool {
        &&& be32(self.raw(), 8) <= self.raw().len()
        &&& be32(self.raw(), 12) <= self.raw().len()
    }

    /// The structure block holds one well-formed, properly closed tree.
    pub open spec fn stream_ok(&self) -> bool {
        wf_stream(self.sblock(), self.strblock(), 0, 0)
    }

    /// The nodes of the tree, in depth-first preorder.
    pub open spec fn tree(&self) -> Seq<model::SpecNode> {
        take_above(spec_nodes(self.sblock(), self.strblock(), 0, 0), 0)
    }

    /// Builds a device tree over the first `totalsize` bytes of `buf`,
    /// after validating the header.  Fails with `Truncated` when the
    /// buffer cannot hold the header or the declared total size, and
    /// with `BadMagic` or `BadVersion` as header validation does.
    pub fn from_bytes(buf: &'buf [u8]) -> (r: Result<FDT<'buf>, Error>)
        ensures
            match r {
                Ok(fdt) => {
                    &&& fdt.wf()
                    &&& buf@.len() >= HEADER_V1_SIZE
                    &&& be32(buf@, 4) <= buf@.len()
                    &&& fdt.raw() == buf@.subrange(0, be32(buf@, 4) as int)
                },
                Err(e) => if buf@.len() < HEADER_V1_SIZE {
                    e == Error::Truncated
                } else if be32(buf@, 0) != MAGIC {
                    e == Error::BadMagic(be32(buf@, 0))
                } else if !(MIN_COMPAT_VERSION <= be32(buf@, 24) <= MAX_COMPAT_VERSION) {
                    e == Error::BadVersion(be32(buf@, 24))
                } else {
                    !(HEADER_V1_SIZE <= be32(buf@, 4) <= buf@.len()) && e == Error::Truncated
                },
            },
    {
        match Blob::from_bytes(buf) {
            Ok(b) => Ok(FDT { blob: b }),
            Err(e) => Err(e),
        }
    }

    /// The physical id of the booting cpu, absent before version 2.
    pub fn boot_cpuid_phys(&self) -> (r: Option<u32>)
        requires
            self.wf(),
            be32(self.raw(), 20) >= 2 ==> self.raw().len() >= 32,
        ensures
            r == if be32(self.raw(), 20) >= 2 {
                Some(be32(self.raw(), 28))
            } else {
                None::<u32>
            },
    {
        self.blob.header().boot_cpuid_phys()
    }

    /// The total size in bytes of the blob, as its header declares and
    /// its buffer measures.
    pub fn total_size(&self) -> (r: u32)
        requires
            self.wf(),
        ensures
            r == be32(self.raw(), 4),
            r == self.raw().len(),
    {
        self.blob.header().totalsize()
    }

    /// The iterator over the reserved physical memory regions.
    pub fn memory_reserve_map(&self) -> (r: MemoryReserveMap<'buf>)
        requires
            self.wf(),
            be32(self.raw(), 16) <= self.raw().len(),
        ensures
            r.blob.d@ == self.raw().subrange(be32(self.raw(), 16) as int, self.raw().len() as int),
            r.blob.o == 0,
    {
        MemoryReserveMap::new(self.blob.rsvmap())
    }

    /// The depth-first iterator over all nodes of the tree, the root
    /// first.
    pub fn nodes(&self) -> (r: Subnodes<'buf>)
        requires
            self.wf(),
            self.blocks_ok(),
        ensures
            r.iter.blob.d@ == self.sblock(),
            r.iter.blob.s@ == self.strblock(),
            r.iter.blob.o == 0,
            r.iter.depth == 0,
            r.min_depth == 0,
    {
        Subnodes::new(self.blob.nodes(), 0)
    }

    /// The first node in preorder whose `phandle` property holds the
    /// given value.
    pub fn phandle(&self, phandle: u32) -> (r: Option<Node<'buf>>)
        requires
            self.wf(),
            self.blocks_ok(),
            self.stream_ok(),
            forall|i: int|
                0 <= i < self.tree().len() ==> match first_prop(
                    spec_props(self.sblock(), self.strblock(), (#[trigger] self.tree()[i]).props),
                    "phandle".spec_bytes(),
                ) {
                    Some(p) => p.value.len() >= 4,
                    None => true,
                },
        ensures
            ({
                let flt = self.tree().filter(
                    model::phandle_pred(self.sblock(), self.strblock(), phandle),
                );
                match r {
                    Some(n) => flt.len() > 0 && n.wf() && n.matches(flt[0]) && n.props.d@
                        == self.sblock() && n.props.s@ == self.strblock(),
                    None => flt.len() == 0,
                }
            }),
    {
        let it = self.nodes();
        proof {
            assert(it.upcoming() == self.tree());
            assert forall|i: int| 0 <= i < it.upcoming().len() implies match first_prop(
                spec_props(it.sblock(), it.strblock(), (#[trigger] it.upcoming()[i]).props),
                "phandle".spec_bytes(),
            ) {
                Some(p) => p.value.len() >= 4,
                None => true,
            } by {
                assert(it.upcoming()[i] == self.tree()[i]);
            }
        }
        it.with_phandle(phandle)
    }

    /// Resolves an alias to the path it names: the value of the property
    /// called `alias` on the node `/aliases`, up to a terminating NUL.
    pub fn alias(&self, alias: &str) -> (r: Option<&'buf str>)
        requires
            self.wf(),
            self.blocks_ok(),
            self.stream_ok(),
        ensures
            match wp_next(self.tree(), split_slash("/aliases".spec_bytes()), 0) {
                Some((an, _, _)) => match first_prop(
                    spec_props(self.sblock(), self.strblock(), an.props),
                    alias.spec_bytes(),
                ) {
                    Some(p) => if valid_utf8(p.value) {
                        r matches Some(t) && t.spec_bytes() == p.value.take(find_nul(p.value, 0))
                    } else {
                        r is None
                    },
                    None => r is None,
                },
                None => r is None,
            },
    {
        let path = "/aliases";
        proof {
            reveal_strlit("/aliases");
            lemma_encode_utf8_len(path@);
            lemma_split_slash_nonempty(path.spec_bytes());
            lemma_split_slash_len(path.spec_bytes());
        }
        let mut wp = self.nodes().with_path(path);
        let aliases = match wp.next() {
            Some(n) => n,
            None => {
                return None;
            },
        };
        let prop = match aliases.property(alias) {
            Some(p) => p,
            None => {
                return None;
            },
        };
        let text: &'buf str = match prop.parse::<&str>() {
            Ok(t) => t,
            Err(_) => {
                return None;
            },
        };
        let tb = text.as_bytes();
        proof {
            lemma_slice_len(tb);
            vstd::utf8::encode_utf8_valid_utf8(text@);
            lemma_find_nul(text.spec_bytes(), 0);
            lemma_ascii_is_boundary(text.spec_bytes(), find_nul(text.spec_bytes(), 0));
        }
        let i = find_nul_from(tb, 0);
        let (piece, _rest) = text.split_at(i);
        proof {
            assert(piece.spec_bytes() =~= text.spec_bytes().take(i as int));
        }
        Some(piece)
    }
}

/// A well-formed blob clears every check of construction: the buffer is
/// long enough, the magic and version fields pass, and the size the
/// header declares is exactly the buffer, so `from_bytes` binds the
/// whole buffer as the tree.
pub proof fn lemma_wf_blob_accepted(b: Seq<u8>)
    requires
        wf_fdt_bytes(b),
    ensures
        b.len() >= HEADER_V1_SIZE,
        be32(b, 0) == MAGIC,
        MIN_COMPAT_VERSION <= be32(b, 24) <= MAX_COMPAT_VERSION,
        HEADER_V1_SIZE <= be32(b, 4) <= b.len(),
        be32(b, 4) == b.len(),
        b.subrange(0, be32(b, 4) as int) == b,
{
    assert(b.subrange(0, b.len() as int) =~= b);
}

} // verus!
