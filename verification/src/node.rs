//! Nodes of the device tree and the traversal iterators over them.

use vstd::prelude::*;
use vstd::slice::slice_subrange;
use vstd::string::StringSliceAdditionalSpecFns;
use crate::blob::StructReader;
use crate::blob::Token;
use crate::model::FDT_BEGIN_NODE;
use crate::model::SpecNode;
use crate::model::SpecProp;
use crate::model::align4;
use crate::model::be32;
use crate::model::find_nul;
use crate::model::first_prop;
use crate::model::lemma_filter_head;
use crate::model::lemma_find_byte;
use crate::model::lemma_find_nul;
use crate::model::lemma_first_prop_filter;
use crate::model::lemma_skip_nops;
use crate::model::lemma_stream_skip_nops;
use crate::model::lemma_wf_depth_bound;
use crate::model::lemma_wf_skip_props;
use crate::model::match_name;
use crate::model::skip_nops;
use crate::model::spec_cells;
use crate::model::spec_compatible;
use crate::model::spec_nodes;
use crate::model::spec_phandle;
use crate::model::spec_props;
use crate::model::spec_skip_props;
use crate::model::split_slash;
use crate::model::take_above;
use crate::model::wf_props;
use crate::model::wf_stream;
use crate::model::wp_next;
use crate::model::NAME_AT;
use crate::property::IsValue;
use crate::property::Properties;
use crate::property::Property;
use crate::property::PropertyIterator;
use crate::util::bytes_eq;
use crate::util::find_byte_from;
use crate::util::lemma_slice_len;
use crate::util::path_segment;
use crate::util::str_eq;

verus! {

/// One node of the device tree: its name, a cursor on its properties, a
/// cursor just past them where its subnodes start, and its depth.
#[derive(Clone, Copy, Debug)]
pub struct Node<'buf> {
    pub name: &'buf str,
    pub props: StructReader<'buf>,
    pub subnodes: StructReader<'buf>,
    pub depth: usize,
}

impl<'buf> Node<'buf> {
    /// The two cursors agree on the blocks, the property run is
    /// well-formed, the subnodes cursor stands right after it, and the
    /// stream there closes this node and everything above it properly.
    pub open spec fn wf(&self) -> bool {
        &&& self.subnodes.d@ == self.props.d@
        &&& self.subnodes.s@ == self.props.s@
        &&& wf_props(self.props.d@, self.props.s@, self.props.o as int)
        &&& self.subnodes.o == spec_skip_props(self.props.d@, self.props.o as int)
        &&& self.depth < usize::MAX
        &&& wf_stream(self.props.d@, self.props.s@, self.subnodes.o as int, (self.depth + 1) as nat)
    }

    /// Whether this node is the one the model describes as `sn`.
    pub open spec fn matches(&self, sn: SpecNode) -> bool {
        &&& self.name.spec_bytes() == sn.name
        &&& self.props.o == sn.props
        &&& self.subnodes.o == sn.subs
        &&& self.depth == sn.depth
    }

    /// The property records of this node, as the model reads them.
    pub open spec fn props_list(&self) -> Seq<SpecProp> {
        spec_props(self.props.d@, self.props.s@, self.props.o as int)
    }

    /// The node's name, with any address part, without any path.
    pub fn name(&self) -> (r: &'buf str)
        ensures
            r == self.name,
    {
        self.name
    }

    /// Whether the node's name matches `name`: the parts before any `@`
    /// must be equal, and when `name` carries an address part, the
    /// node's name must carry an equal one.
    pub fn has_name(&self, name: &str) -> (r: bool)
        ensures
            r == match_name(self.name.spec_bytes(), name.spec_bytes()),
    {
        let nb = self.name.as_bytes();
        let qb = name.as_bytes();
        proof {
            lemma_find_byte(nb@, NAME_AT, 0);
            lemma_find_byte(qb@, NAME_AT, 0);
        }
        let ni = find_byte_from(nb, NAME_AT, 0);
        let qi = find_byte_from(qb, NAME_AT, 0);
        if qi == qb.len() {
            proof {
                assert(nb@.subrange(0, ni as int) =~= nb@.take(ni as int));
            }
            bytes_eq(slice_subrange(nb, 0, ni), qb)
        } else if ni == nb.len() {
            false
        } else {
            proof {
                assert(nb@.subrange(0, ni as int) =~= nb@.take(ni as int));
                assert(qb@.subrange(0, qi as int) =~= qb@.take(qi as int));
            }
            if !bytes_eq(slice_subrange(nb, 0, ni), slice_subrange(qb, 0, qi)) {
                return false;
            }
            let n2 = slice_subrange(nb, ni + 1, nb.len());
            let q2 = slice_subrange(qb, qi + 1, qb.len());
            proof {
                assert(n2@ =~= nb@.skip(ni as int + 1));
                assert(q2@ =~= qb@.skip(qi as int + 1));
                lemma_find_byte(n2@, NAME_AT, 0);
                lemma_find_byte(q2@, NAME_AT, 0);
            }
            let n2e = find_byte_from(n2, NAME_AT, 0);
            let q2e = find_byte_from(q2, NAME_AT, 0);
            proof {
                assert(n2@.subrange(0, n2e as int) =~= n2@.take(n2e as int));
                assert(q2@.subrange(0, q2e as int) =~= q2@.take(q2e as int));
            }
            bytes_eq(slice_subrange(n2, 0, n2e), slice_subrange(q2, 0, q2e))
        }
    }

    /// An iterator over the node's properties, in stream order.
    pub fn properties(&self) -> (r: Properties<'buf>)
        ensures
            r.blob == self.props,
    {
        Properties::new(self.props)
    }

    /// The node's depth: zero at the root, one more per nesting level.
    pub fn depth(&self) -> (r: usize)
        ensures
            r == self.depth,
    {
        self.depth
    }

    /// An iterator over all subnodes of this node, depth first.
    pub fn subnodes(&self) -> (r: Subnodes<'buf>)
        requires
            self.wf(),
        ensures
            r.iter.blob == self.subnodes,
            r.iter.depth == self.depth + 1,
            r.min_depth == self.depth + 1,
    {
        Subnodes::from_node(self)
    }

    /// The node's first property named `name`.
    pub fn property(&self, name: &str) -> (r: Option<Property<'buf>>)
        requires
            self.wf(),
        ensures
            match r {
                Some(p) => first_prop(self.props_list(), name.spec_bytes()) matches Some(sp)
                    && p.name.spec_bytes() == sp.name && p.value@ == sp.value,
                None => first_prop(self.props_list(), name.spec_bytes()) is None,
            },
    {
        proof {
            lemma_first_prop_filter(self.props_list(), name.spec_bytes());
        }
        let mut it = self.properties().with_name(name);
        it.next()
    }

    /// The node's phandle, when it carries one that decodes.
    pub fn phandle(&self) -> (r: Option<u32>)
        requires
            self.wf(),
        ensures
            r == spec_phandle(self.props_list()),
    {
        match self.property("phandle") {
            Some(p) => match p.as_u32() {
                Ok(v) => Some(v),
                Err(_) => None,
            },
            None => None,
        }
    }

    /// Whether `name` appears in the node's `compatible` string list; a
    /// node without a readable list is compatible with nothing.
    pub fn is_compatible_with(&self, name: &str) -> (r: bool)
        requires
            self.wf(),
        ensures
            r == spec_compatible(self.props_list(), name.spec_bytes()),
    {
        match self.property("compatible") {
            Some(p) => match p.as_stringlist() {
                Ok(sl) => sl.contains(name),
                Err(_) => false,
            },
            None => false,
        }
    }

    /// The node's `#address-cells` value; two when it is missing or does
    /// not decode.
    pub fn address_cells(&self) -> (r: u32)
        requires
            self.wf(),
        ensures
            r == spec_cells(self.props_list(), "#address-cells".spec_bytes()),
    {
        match self.property("#address-cells") {
            Some(p) => match p.as_u32() {
                Ok(v) => v,
                Err(_) => 2,
            },
            None => 2,
        }
    }

    /// The node's `#size-cells` value; two when it is missing or does
    /// not decode.
    pub fn size_cells(&self) -> (r: u32)
        requires
            self.wf(),
        ensures
            r == spec_cells(self.props_list(), "#size-cells".spec_bytes()),
    {
        match self.property("#size-cells") {
            Some(p) => match p.as_u32() {
                Ok(v) => v,
                Err(_) => 2,
            },
            None => 2,
        }
    }

    /// An iterator over the direct children of this node only.
    pub fn children(&self) -> (r: Children<'buf>)
        requires
            self.wf(),
        ensures
            r.0.iter.blob == self.subnodes,
            r.0.iter.depth == self.depth + 1,
            r.0.min_depth == self.depth + 1,
    {
        Children(self.subnodes())
    }

    /// The ancestor of this node at the given depth; walking upwards is
    /// not available on a forward cursor, so there is never one.
    pub fn supernode_at_depth(&self, depth: usize) -> (r: Option<Node<'buf>>)
        ensures
            r is None,
    {
        let _ = depth;
        None
    }
}

/// The raw depth-first iterator over the nodes of a structure-block
/// stream, with its running depth counter.
#[derive(Clone, Copy, Debug)]
pub struct Nodes<'buf> {
    pub blob: StructReader<'buf>,
    pub depth: usize,
}

impl<'buf> Nodes<'buf> {
    /// Wraps a structure-block cursor, counting depth from
    /// `initial_depth`.
    pub fn new(blob: StructReader<'buf>, initial_depth: usize) -> (r: Nodes<'buf>)
        ensures
            r.blob == blob,
            r.depth == initial_depth,
    {
        Nodes { blob, depth: initial_depth }
    }

    /// The iterator over what follows a node's properties: its subnodes
    /// and everything after them.
    fn after_node(node: &Node<'buf>) -> (r: Nodes<'buf>)
        requires
            node.depth < usize::MAX,
        ensures
            r.blob == node.subnodes,
            r.depth == node.depth + 1,
    {
        Nodes::new(node.subnodes, node.depth + 1)
    }
}

/// An iterator over nodes, with its filter combinators.
pub trait NodeIterator<'buf>: Sized {
    /// The structure-block bytes the iterator walks.
    spec fn sblock(&self) -> Seq<u8>;

    /// The strings-block bytes property names resolve in.
    spec fn strblock(&self) -> Seq<u8>;

    /// The iterator can keep reading where it stands.
    spec fn nwf(&self) -> bool;

    /// The nodes the iterator will still yield.
    spec fn upcoming(&self) -> Seq<SpecNode>;

    /// Yields the next node, or nothing when the traversal is over.
    fn next(&mut self) -> (r: Option<Node<'buf>>)
        requires
            old(self).nwf(),
        ensures
            final(self).sblock() == old(self).sblock(),
            final(self).strblock() == old(self).strblock(),
            match r {
                Some(n) => {
                    &&& old(self).upcoming().len() > 0
                    &&& n.wf()
                    &&& n.matches(old(self).upcoming()[0])
                    &&& n.props.d@ == old(self).sblock()
                    &&& n.props.s@ == old(self).strblock()
                    &&& final(self).nwf()
                    &&& final(self).upcoming() == old(self).upcoming().drop_first()
                },
                None => old(self).upcoming().len() == 0,
            },
    ;

    /// Restricts the iterator to nodes whose name matches `name`.
    fn with_name<'n>(self, name: &'n str) -> (r: WithName<'n, Self>)
        ensures
            r == (WithName { iter: self, name }),
    {
        WithName { iter: self, name }
    }

    /// Restricts the iterator to nodes compatible with `compatible`.
    fn compatible_with<'n>(self, compatible: &'n str) -> (r: CompatibleWith<'n, Self>)
        ensures
            r == (CompatibleWith { iter: self, comp: compatible }),
    {
        CompatibleWith { iter: self, comp: compatible }
    }

    /// Restricts the iterator to nodes that carry a property named
    /// `property`.
    fn with_property<'n>(self, property: &'n str) -> (r: WithProperty<'n, Self>)
        ensures
            r == (WithProperty { iter: self, name: property }),
    {
        WithProperty { iter: self, name: property }
    }

    /// Consumes the iterator and returns its first node whose `phandle`
    /// property holds the given value.
    fn with_phandle(self, phandle: u32) -> (r: Option<Node<'buf>>)
        requires
            self.nwf(),
            forall|i: int|
                0 <= i < self.upcoming().len() ==> match first_prop(
                    spec_props(
                        self.sblock(),
                        self.strblock(),
                        (#[trigger] self.upcoming()[i]).props,
                    ),
                    "phandle".spec_bytes(),
                ) {
                    Some(p) => p.value.len() >= 4,
                    None => true,
                },
        ensures
            ({
                let flt = self.upcoming().filter(
                    crate::model::phandle_pred(self.sblock(), self.strblock(), phandle),
                );
                match r {
                    Some(n) => flt.len() > 0 && n.wf() && n.matches(flt[0]) && n.props.d@
                        == self.sblock() && n.props.s@ == self.strblock(),
                    None => flt.len() == 0,
                }
            }),
    {
        let ghost pred = crate::model::phandle_pred(self.sblock(), self.strblock(), phandle);
        let mut it = self;
        loop
            invariant
                it.nwf(),
                it.sblock() == self.sblock(),
                it.strblock() == self.strblock(),
                forall|i: int|
                    0 <= i < it.upcoming().len() ==> match first_prop(
                        spec_props(it.sblock(), it.strblock(), (#[trigger] it.upcoming()[i]).props),
                        "phandle".spec_bytes(),
                    ) {
                        Some(p) => p.value.len() >= 4,
                        None => true,
                    },
                it.upcoming().filter(pred) == self.upcoming().filter(pred),
            decreases it.upcoming().len(),
        {
            let ghost up = it.upcoming();
            match it.next() {
                Some(n) => {
                    proof {
                        lemma_filter_head(up, pred);
                    }
                    match n.property("phandle") {
                        Some(p) => {
                            if p.is_equal(phandle) {
                                return Some(n);
                            }
                        },
                        None => {},
                    }
                },
                None => {
                    return None;
                },
            }
        }
    }
}

impl<'buf> NodeIterator<'buf> for Nodes<'buf> {
    /// The bytes of the structure block the cursor walks.
    open spec fn sblock(&self) -> Seq<u8> {
        self.blob.d@
    }

    /// The bytes of the strings block carried alongside.
    open spec fn strblock(&self) -> Seq<u8> {
        self.blob.s@
    }

    /// The stream ahead of the cursor is well-formed at the current
    /// depth.
    open spec fn nwf(&self) -> bool {
        wf_stream(self.blob.d@, self.blob.s@, self.blob.o as int, self.depth as nat)
    }

    /// The nodes of the stream ahead of the cursor, in preorder.
    open spec fn upcoming(&self) -> Seq<SpecNode> {
        spec_nodes(self.blob.d@, self.blob.s@, self.blob.o as int, self.depth as nat)
    }

    fn next(&mut self) -> (r: Option<Node<'buf>>) {
        let ghost d = self.blob.d@;
        let ghost s = self.blob.s@;
        proof {
            lemma_slice_len(self.blob.d);
            lemma_slice_len(self.blob.s);
        }
        loop
            invariant
                self.blob.d == old(self).blob.d,
                self.blob.s == old(self).blob.s,
                wf_stream(d, s, self.blob.o as int, self.depth as nat),
                spec_nodes(d, s, self.blob.o as int, self.depth as nat) == old(self).upcoming(),
            decreases d.len() - self.blob.o,
        {
            let ghost cur = self.blob.o as int;
            let ghost dep = self.depth as nat;
            proof {
                lemma_stream_skip_nops(d, s, cur, dep);
                lemma_skip_nops(d, cur);
            }
            let ghost at = skip_nops(d, cur);
            let t = self.blob.token();
            match t {
                Token::BeginNode => {
                    assert(be32(d, at) == FDT_BEGIN_NODE);
                    let ghost ne = find_nul(d, at + 4);
                    let ghost p = align4(ne + 1);
                    let ghost subs = spec_skip_props(d, p);
                    proof {
                        lemma_find_nul(d, at + 4);
                        lemma_wf_skip_props(d, s, p);
                        lemma_wf_depth_bound(d, s, subs, dep + 1);
                    }
                    let d0 = self.depth;
                    self.depth = d0 + 1;
                    let name = self.blob.string();
                    self.blob.align(4);
                    let props = self.blob;
                    self.blob.skip_props();
                    let node = Node { name, props, subnodes: self.blob, depth: d0 };
                    proof {
                        assert(spec_nodes(d, s, subs, dep + 1) =~= old(self).upcoming().drop_first());
                    }
                    return Some(node);
                },
                Token::EndNode => {
                    assert(self.depth >= 1);
                    self.depth = self.depth - 1;
                },
                Token::End => {
                    assert(self.depth == 0);
                    return None;
                },
                _ => {
                    proof {
                        assert(false);
                    }
                },
            }
        }
    }
}

/// An iterator over the subnodes of one node: the subtree walk ends when
/// the traversal climbs back above the node.
#[derive(Clone, Copy, Debug)]
pub struct Subnodes<'buf> {
    pub iter: Nodes<'buf>,
    pub min_depth: usize,
}

impl<'buf> Subnodes<'buf> {
    /// The iterator over the subnodes of one node, ending with them.
    fn from_node(node: &Node<'buf>) -> (r: Subnodes<'buf>)
        requires
            node.depth < usize::MAX,
        ensures
            r.iter.blob == node.subnodes,
            r.iter.depth == node.depth + 1,
            r.min_depth == node.depth + 1,
    {
        Subnodes { iter: Nodes::after_node(node), min_depth: node.depth + 1 }
    }

    /// Wraps a raw node iterator, keeping only nodes at `depth` or
    /// deeper.
    pub fn new(blob: StructReader<'buf>, depth: usize) -> (r: Subnodes<'buf>)
        ensures
            r.iter.blob == blob,
            r.iter.depth == depth,
            r.min_depth == depth,
    {
        Subnodes { iter: Nodes::new(blob, depth), min_depth: depth }
    }

    /// Restricts the traversal to nodes matching a slash-separated path;
    /// a `*` segment matches any name.
    pub fn with_path<'path>(self, path: &'path str) -> (r: WithPath<'buf, 'path>)
        ensures
            r.iter == self,
            r.path == path,
            r.depth == self.min_depth,
    {
        let depth = self.min_depth;
        WithPath { iter: self, path, depth }
    }
}

impl<'buf> NodeIterator<'buf> for Subnodes<'buf> {
    /// The bytes of the structure block the cursor walks.
    open spec fn sblock(&self) -> Seq<u8> {
        self.iter.sblock()
    }

    /// The bytes of the strings block carried alongside.
    open spec fn strblock(&self) -> Seq<u8> {
        self.iter.strblock()
    }

    /// The underlying stream is well-formed.
    open spec fn nwf(&self) -> bool {
        self.iter.nwf()
    }

    /// The longest prefix of the underlying walk that stays at
    /// `min_depth` or deeper.
    open spec fn upcoming(&self) -> Seq<SpecNode> {
        take_above(self.iter.upcoming(), self.min_depth as nat)
    }

    fn next(&mut self) -> (r: Option<Node<'buf>>)
        ensures
            final(self).min_depth == old(self).min_depth,
    {
        let ghost up = self.iter.upcoming();
        match self.iter.next() {
            Some(n) => {
                if n.depth() >= self.min_depth {
                    proof {
                        assert(take_above(up, self.min_depth as nat).drop_first() =~= take_above(
                            up.drop_first(),
                            self.min_depth as nat,
                        ));
                    }
                    Some(n)
                } else {
                    None
                }
            },
            None => None,
        }
    }
}

/// An iterator over the direct children of a node: the subnodes that sit
/// exactly one level below it.
#[derive(Clone, Copy, Debug)]
pub struct Children<'buf>(pub Subnodes<'buf>);

impl<'buf> NodeIterator<'buf> for Children<'buf> {
    /// The bytes of the structure block the cursor walks.
    open spec fn sblock(&self) -> Seq<u8> {
        self.0.sblock()
    }

    /// The bytes of the strings block carried alongside.
    open spec fn strblock(&self) -> Seq<u8> {
        self.0.strblock()
    }

    /// The underlying subnode traversal is well-formed.
    open spec fn nwf(&self) -> bool {
        self.0.nwf()
    }

    /// The subnodes that sit exactly at the child level.
    open spec fn upcoming(&self) -> Seq<SpecNode> {
        self.0.upcoming().filter(|sn: SpecNode| sn.depth == self.0.min_depth as nat)
    }

    fn next(&mut self) -> (r: Option<Node<'buf>>) {
        let ghost pred = |sn: SpecNode| sn.depth == self.0.min_depth as nat;
        loop
            invariant
                self.0.min_depth == old(self).0.min_depth,
                self.0.nwf(),
                self.0.sblock() == old(self).0.sblock(),
                self.0.strblock() == old(self).0.strblock(),
                self.0.upcoming().filter(pred) == old(self).upcoming(),
            decreases self.0.upcoming().len(),
        {
            let ghost up = self.0.upcoming();
            match self.0.next() {
                Some(n) => {
                    proof {
                        lemma_filter_head(up, pred);
                    }
                    if n.depth() == self.0.min_depth {
                        return Some(n);
                    }
                },
                None => {
                    return None;
                },
            }
        }
    }
}

/// A lazy filter keeping the nodes whose name matches a given one.
#[derive(Clone, Copy, Debug)]
pub struct WithName<'name, I> {
    pub iter: I,
    pub name: &'name str,
}

impl<'buf, 'name, I: NodeIterator<'buf>> NodeIterator<'buf> for WithName<'name, I> {
    /// The bytes of the structure block the cursor walks.
    open spec fn sblock(&self) -> Seq<u8> {
        self.iter.sblock()
    }

    /// The bytes of the strings block carried alongside.
    open spec fn strblock(&self) -> Seq<u8> {
        self.iter.strblock()
    }

    /// The upstream iterator is well-formed.
    open spec fn nwf(&self) -> bool {
        self.iter.nwf()
    }

    /// The upstream nodes whose name matches.
    open spec fn upcoming(&self) -> Seq<SpecNode> {
        self.iter.upcoming().filter(
            |sn: SpecNode| match_name(sn.name, self.name.spec_bytes()),
        )
    }

    fn next(&mut self) -> (r: Option<Node<'buf>>) {
        let ghost pred = |sn: SpecNode| match_name(sn.name, self.name.spec_bytes());
        loop
            invariant
                self.name == old(self).name,
                self.iter.nwf(),
                self.iter.sblock() == old(self).sblock(),
                self.iter.strblock() == old(self).strblock(),
                self.iter.upcoming().filter(pred) == old(self).upcoming(),
            decreases self.iter.upcoming().len(),
        {
            let ghost up = self.iter.upcoming();
            match self.iter.next() {
                Some(n) => {
                    proof {
                        lemma_filter_head(up, pred);
                    }
                    if n.has_name(self.name) {
                        return Some(n);
                    }
                },
                None => {
                    return None;
                },
            }
        }
    }
}

/// A lazy filter keeping the nodes compatible with a given string.
#[derive(Clone, Copy, Debug)]
pub struct CompatibleWith<'str, I> {
    pub iter: I,
    pub comp: &'str str,
}

impl<'buf, 'str, I: NodeIterator<'buf>> NodeIterator<'buf> for CompatibleWith<'str, I> {
    /// The bytes of the structure block the cursor walks.
    open spec fn sblock(&self) -> Seq<u8> {
        self.iter.sblock()
    }

    /// The bytes of the strings block carried alongside.
    open spec fn strblock(&self) -> Seq<u8> {
        self.iter.strblock()
    }

    /// The upstream iterator is well-formed.
    open spec fn nwf(&self) -> bool {
        self.iter.nwf()
    }

    /// The upstream nodes whose `compatible` list contains the string.
    open spec fn upcoming(&self) -> Seq<SpecNode> {
        self.iter.upcoming().filter(
            |sn: SpecNode|
                spec_compatible(
                    spec_props(self.iter.sblock(), self.iter.strblock(), sn.props),
                    self.comp.spec_bytes(),
                ),
        )
    }

    fn next(&mut self) -> (r: Option<Node<'buf>>) {
        let ghost pred = |sn: SpecNode|
            spec_compatible(
                spec_props(self.iter.sblock(), self.iter.strblock(), sn.props),
                self.comp.spec_bytes(),
            );
        loop
            invariant
                self.comp == old(self).comp,
                self.iter.nwf(),
                self.iter.sblock() == old(self).sblock(),
                self.iter.strblock() == old(self).strblock(),
                self.iter.upcoming().filter(pred) == old(self).upcoming(),
            decreases self.iter.upcoming().len(),
        {
            let ghost up = self.iter.upcoming();
            match self.iter.next() {
                Some(n) => {
                    proof {
                        lemma_filter_head(up, pred);
                    }
                    if n.is_compatible_with(self.comp) {
                        return Some(n);
                    }
                },
                None => {
                    return None;
                },
            }
        }
    }
}

/// A lazy filter keeping the nodes that carry a property with a given
/// name.
#[derive(Clone, Copy, Debug)]
pub struct WithProperty<'name, I> {
    pub iter: I,
    pub name: &'name str,
}

impl<'name, I> WithProperty<'name, I> {
    /// Further restricts the filter to nodes whose property also holds
    /// the given value.
    pub fn with_value<V>(self, value: V) -> (r: WithPropertyValue<'name, I, V>)
        ensures
            r.iter == self.iter,
            r.name == self.name,
            r.val == value,
    {
        WithPropertyValue { iter: self.iter, name: self.name, val: value }
    }
}

impl<'buf, 'name, I: NodeIterator<'buf>> NodeIterator<'buf> for WithProperty<'name, I> {
    /// The bytes of the structure block the cursor walks.
    open spec fn sblock(&self) -> Seq<u8> {
        self.iter.sblock()
    }

    /// The bytes of the strings block carried alongside.
    open spec fn strblock(&self) -> Seq<u8> {
        self.iter.strblock()
    }

    /// The upstream iterator is well-formed.
    open spec fn nwf(&self) -> bool {
        self.iter.nwf()
    }

    /// The upstream nodes that carry the property.
    open spec fn upcoming(&self) -> Seq<SpecNode> {
        self.iter.upcoming().filter(
            |sn: SpecNode|
                first_prop(
                    spec_props(self.iter.sblock(), self.iter.strblock(), sn.props),
                    self.name.spec_bytes(),
                ) is Some,
        )
    }

    fn next(&mut self) -> (r: Option<Node<'buf>>) {
        let ghost pred = |sn: SpecNode|
            first_prop(
                spec_props(self.iter.sblock(), self.iter.strblock(), sn.props),
                self.name.spec_bytes(),
            ) is Some;
        loop
            invariant
                self.name == old(self).name,
                self.iter.nwf(),
                self.iter.sblock() == old(self).sblock(),
                self.iter.strblock() == old(self).strblock(),
                self.iter.upcoming().filter(pred) == old(self).upcoming(),
            decreases self.iter.upcoming().len(),
        {
            let ghost up = self.iter.upcoming();
            match self.iter.next() {
                Some(n) => {
                    proof {
                        lemma_filter_head(up, pred);
                    }
                    if n.property(self.name).is_some() {
                        return Some(n);
                    }
                },
                None => {
                    return None;
                },
            }
        }
    }
}

/// A lazy filter keeping the nodes whose named property holds a given
/// value.
#[derive(Clone, Copy)]
pub struct WithPropertyValue<'prop, I, V> {
    pub iter: I,
    pub name: &'prop str,
    pub val: V,
}

impl<'buf, 'prop, I: NodeIterator<'buf>, V: IsValue + Copy> NodeIterator<'buf> for
    WithPropertyValue<'prop, I, V> {
    /// The bytes of the structure block the cursor walks.
    open spec fn sblock(&self) -> Seq<u8> {
        self.iter.sblock()
    }

    /// The bytes of the strings block carried alongside.
    open spec fn strblock(&self) -> Seq<u8> {
        self.iter.strblock()
    }

    /// The upstream iterator is well-formed and every upcoming node's
    /// named property, where present, is long enough to compare.
    open spec fn nwf(&self) -> bool {
        &&& self.iter.nwf()
        &&& forall|i: int|
            0 <= i < self.iter.upcoming().len() ==> match first_prop(
                spec_props(
                    self.iter.sblock(),
                    self.iter.strblock(),
                    (#[trigger] self.iter.upcoming()[i]).props,
                ),
                self.name.spec_bytes(),
            ) {
                Some(p) => V::can_cmp(p.value),
                None => true,
            }
    }

    /// The upstream nodes whose named property holds the value.
    open spec fn upcoming(&self) -> Seq<SpecNode> {
        self.iter.upcoming().filter(
            |sn: SpecNode|
                match first_prop(
                    spec_props(self.iter.sblock(), self.iter.strblock(), sn.props),
                    self.name.spec_bytes(),
                ) {
                    Some(p) => self.val.matches_value(p.value),
                    None => false,
                },
        )
    }

    fn next(&mut self) -> (r: Option<Node<'buf>>) {
        let ghost pred = |sn: SpecNode|
            match first_prop(
                spec_props(self.iter.sblock(), self.iter.strblock(), sn.props),
                self.name.spec_bytes(),
            ) {
                Some(p) => self.val.matches_value(p.value),
                None => false,
            };
        loop
            invariant
                self.name == old(self).name,
                self.val == old(self).val,
                self.nwf(),
                self.iter.sblock() == old(self).sblock(),
                self.iter.strblock() == old(self).strblock(),
                self.iter.upcoming().filter(pred) == old(self).upcoming(),
            decreases self.iter.upcoming().len(),
        {
            let ghost up = self.iter.upcoming();
            match self.iter.next() {
                Some(n) => {
                    proof {
                        lemma_filter_head(up, pred);
                    }
                    match n.property(self.name) {
                        Some(p) => {
                            if p.is_equal(self.val) {
                                return Some(n);
                            }
                        },
                        None => {},
                    }
                },
                None => {
                    return None;
                },
            }
        }
    }
}

/// A stateful walker matching a slash-separated path against a subnode
/// traversal; it tracks how many leading segments are matched so far.
#[derive(Clone, Copy, Debug)]
pub struct WithPath<'buf, 'path> {
    pub iter: Subnodes<'buf>,
    pub path: &'path str,
    pub depth: usize,
}

impl<'buf, 'path> WithPath<'buf, 'path> {
    /// The traversal is well-formed and the matched-segment counter
    /// points at a segment of the path.
    pub open spec fn wpwf(&self) -> bool {
        &&& self.iter.nwf()
        &&& self.iter.min_depth <= self.depth
        &&& (self.depth as int) < split_slash(self.path.spec_bytes()).len()
        &&& split_slash(self.path.spec_bytes()).len() <= usize::MAX
    }

    /// Walks the traversal forward to the next node the path denotes, as
    /// the model's path walker describes it.
    pub fn next(&mut self) -> (r: Option<Node<'buf>>)
        requires
            old(self).wpwf(),
        ensures
            final(self).path == old(self).path,
            final(self).iter.min_depth == old(self).iter.min_depth,
            final(self).iter.sblock() == old(self).iter.sblock(),
            final(self).iter.strblock() == old(self).iter.strblock(),
            match wp_next(
                old(self).iter.upcoming(),
                split_slash(old(self).path.spec_bytes()),
                old(self).depth as int,
            ) {
                Some((sn, rest, nd)) => {
                    &&& r matches Some(n)
                    &&& (r matches Some(n) ==> n.wf() && n.matches(sn) && n.props.d@ == old(
                        self,
                    ).iter.sblock() && n.props.s@ == old(self).iter.strblock())
                    &&& final(self).iter.upcoming() == rest
                    &&& final(self).depth == nd
                    &&& final(self).wpwf()
                },
                None => r is None,
            },
    {
        let ghost segs = split_slash(self.path.spec_bytes());
        loop
            invariant
                self.path == old(self).path,
                self.iter.min_depth == old(self).iter.min_depth,
                self.iter.sblock() == old(self).iter.sblock(),
                self.iter.strblock() == old(self).iter.strblock(),
                self.iter.nwf(),
                self.iter.min_depth <= self.depth,
                (self.depth as int) < segs.len(),
                segs.len() <= usize::MAX,
                wp_next(self.iter.upcoming(), segs, self.depth as int) == wp_next(
                    old(self).iter.upcoming(),
                    segs,
                    old(self).depth as int,
                ),
            decreases self.iter.upcoming().len(),
        {
            let ghost up = self.iter.upcoming();
            match self.iter.next() {
                Some(n) => {
                    if n.depth() == self.depth {
                        let seg = match path_segment(self.path, self.depth) {
                            Some(t) => t,
                            None => vstd::pervasive::unreached(),
                        };
                        if n.has_name(seg) || str_eq(seg, "*") {
                            match path_segment(self.path, self.depth + 1) {
                                Some(_) => {
                                    self.depth = self.depth + 1;
                                },
                                None => {
                                    return Some(n);
                                },
                            }
                        }
                    } else if n.depth() < self.depth {
                        self.depth = n.depth();
                    }
                },
                None => {
                    return None;
                },
            }
        }
    }
}

} // verus!
