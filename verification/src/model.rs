//! The mathematical model of the flattened-device-tree byte format.
//!
//! Everything here is specification-level: the structure block and the
//! strings block are modelled as byte sequences, and the recursive
//! functions below define what a well-formed token stream looks like and
//! which nodes and properties it denotes.  The executable cursors in the
//! rest of the crate are specified against these functions.

use vstd::prelude::*;
use vstd::string::StringSliceAdditionalSpecFns;
use vstd::utf8::valid_utf8;
use vstd::arithmetic::div_mod::lemma_fundamental_div_mod;
use vstd::arithmetic::div_mod::lemma_fundamental_div_mod_converse_div;
use vstd::arithmetic::div_mod::lemma_mod_bound;
use vstd::arithmetic::div_mod::lemma_mod_multiples_basic;

verus! {

/// Structure-block token: opens a node.
pub const FDT_BEGIN_NODE: u32 = 1;

/// Structure-block token: closes the innermost open node.
pub const FDT_END_NODE: u32 = 2;

/// Structure-block token: a property record follows.
pub const FDT_PROP: u32 = 3;

/// Structure-block token: skipped without effect.
pub const FDT_NOP: u32 = 4;

/// Structure-block token: end of the structure block.
pub const FDT_END: u32 = 9;

/// The big-endian 32-bit word formed by the four bytes of `b` starting at `o`.
pub open spec fn be32(b: Seq<u8>, o: int) -> u32 {
    ((b[o] as int) * 0x1000000 + (b[o + 1] as int) * 0x10000 + (b[o + 2] as int) * 0x100 + (b[o
        + 3] as int)) as u32
}

/// The big-endian 64-bit word formed by the eight bytes of `b` starting at `o`.
pub open spec fn be64(b: Seq<u8>, o: int) -> u64 {
    ((be32(b, o) as int) * 0x100000000 + (be32(b, o + 4) as int)) as u64
}

/// `o` rounded up to the next multiple of `a`.
pub open spec fn align_up(o: int, a: int) -> int {
    ((o + a - 1) / a) * a
}

/// `o` rounded up to the next multiple of four.
pub open spec fn align4(o: int) -> int {
    align_up(o, 4)
}

/// The index of the first NUL byte of `b` at or after `o`, or `b.len()`
/// when there is none.
pub open spec fn find_nul(b: Seq<u8>, o: int) -> int
    decreases b.len() - o,
{
    if o >= b.len() {
        b.len() as int
    } else if b[o] == 0 {
        o
    } else {
        find_nul(b, o + 1)
    }
}

/// The first offset at or after `o` that does not carry an `FDT_NOP` token.
pub open spec fn skip_nops(d: Seq<u8>, o: int) -> int
    decreases d.len() - o,
{
    if o + 4 <= d.len() && be32(d, o) == FDT_NOP {
        skip_nops(d, o + 4)
    } else {
        o
    }
}

/// One property record of the structure block, resolved against the
/// strings block: `off` is the offset of its `FDT_PROP` token, `name` the
/// NUL-terminated name the record's offset selects in the strings block,
/// `value` its value bytes, and `end` the aligned offset just past the
/// record.
pub ghost struct SpecProp {
    pub off: int,
    pub nameoff: int,
    pub name: Seq<u8>,
    pub value: Seq<u8>,
    pub end: int,
}

/// The offset of the first non-`FDT_PROP`, non-`FDT_NOP` token at or
/// after `o`; property records in between are stepped over whole.
pub open spec fn spec_skip_props(d: Seq<u8>, o: int) -> int
    decreases d.len() - o,
{
    if o + 4 <= d.len() {
        let tag = be32(d, o);
        if tag == FDT_NOP {
            spec_skip_props(d, o + 4)
        } else if tag == FDT_PROP {
            let next = align4(o + 12 + be32(d, o + 4) as int);
            if o < next && next <= d.len() {
                spec_skip_props(d, next)
            } else {
                o
            }
        } else {
            o
        }
    } else {
        o
    }
}

/// Well-formedness of a run of property records starting at `o`: every
/// record lies within the structure block, resolves its name inside the
/// strings block to valid UTF-8, and the run is ended by some readable
/// non-property token.
pub open spec fn wf_props(d: Seq<u8>, s: Seq<u8>, o: int) -> bool
    decreases d.len() - o,
{
    if o + 4 <= d.len() {
        let tag = be32(d, o);
        if tag == FDT_NOP {
            wf_props(d, s, o + 4)
        } else if tag == FDT_PROP {
            let l = be32(d, o + 4) as int;
            let noff = be32(d, o + 8) as int;
            let next = align4(o + 12 + l);
            if o + 12 + l <= d.len() && next <= d.len() && o < next {
                &&& noff <= s.len()
                &&& valid_utf8(s.subrange(noff, find_nul(s, noff)))
                &&& wf_props(d, s, next)
            } else {
                false
            }
        } else {
            true
        }
    } else {
        false
    }
}

/// The property records of the run starting at `o`, in stream order.
pub open spec fn spec_props(d: Seq<u8>, s: Seq<u8>, o: int) -> Seq<SpecProp>
    decreases d.len() - o,
{
    if o + 4 <= d.len() {
        let tag = be32(d, o);
        if tag == FDT_NOP {
            spec_props(d, s, o + 4)
        } else if tag == FDT_PROP {
            let l = be32(d, o + 4) as int;
            let noff = be32(d, o + 8) as int;
            let vend = o + 12 + l;
            let next = align4(vend);
            if vend <= d.len() && next <= d.len() && o < next {
                seq![
                    SpecProp {
                        off: o,
                        nameoff: noff,
                        name: s.subrange(noff, find_nul(s, noff)),
                        value: d.subrange(o + 12, vend),
                        end: next,
                    },
                ] + spec_props(d, s, next)
            } else {
                seq![]
            }
        } else {
            seq![]
        }
    } else {
        seq![]
    }
}

/// One node of the structure block: `off` is the offset of its
/// `FDT_BEGIN_NODE` token, `name` its name bytes, `props` the offset of
/// its property run, `subs` the offset just past that run, and `depth`
/// its depth in the tree.
pub ghost struct SpecNode {
    pub off: int,
    pub name: Seq<u8>,
    pub props: int,
    pub subs: int,
    pub depth: nat,
}

/// Whether the token at `t` is a readable `FDT_END`.
pub open spec fn is_end_tag(d: Seq<u8>, t: int) -> bool {
    t + 4 <= d.len() && be32(d, t) == FDT_END
}

/// Well-formedness of the structure-block stream at offset `o` with
/// `depth` nodes currently open: node names are NUL-terminated valid
/// UTF-8, property runs are well-formed, begin and end tokens balance,
/// the last close of the outermost node is followed by `FDT_END`, and
/// `FDT_END` appears only at depth zero.
pub open spec fn wf_stream(d: Seq<u8>, s: Seq<u8>, o: int, depth: nat) -> bool
    decreases d.len() - o,
{
    if o + 4 <= d.len() {
        let tag = be32(d, o);
        if tag == FDT_NOP {
            wf_stream(d, s, o + 4, depth)
        } else if tag == FDT_BEGIN_NODE {
            let ne = find_nul(d, o + 4);
            let p = align4(ne + 1);
            let subs = spec_skip_props(d, p);
            if ne < d.len() && o < subs && subs <= d.len() {
                &&& valid_utf8(d.subrange(o + 4, ne))
                &&& wf_props(d, s, p)
                &&& wf_stream(d, s, subs, depth + 1)
            } else {
                false
            }
        } else if tag == FDT_END_NODE {
            if depth >= 1 {
                &&& (depth == 1 ==> is_end_tag(d, skip_nops(d, o + 4)))
                &&& wf_stream(d, s, o + 4, (depth - 1) as nat)
            } else {
                false
            }
        } else if tag == FDT_END {
            depth == 0
        } else {
            false
        }
    } else {
        false
    }
}

/// The nodes the stream at `(o, depth)` denotes, in depth-first preorder.
pub open spec fn spec_nodes(d: Seq<u8>, s: Seq<u8>, o: int, depth: nat) -> Seq<SpecNode>
    decreases d.len() - o,
{
    if o + 4 <= d.len() {
        let tag = be32(d, o);
        if tag == FDT_NOP {
            spec_nodes(d, s, o + 4, depth)
        } else if tag == FDT_BEGIN_NODE {
            let ne = find_nul(d, o + 4);
            let p = align4(ne + 1);
            let subs = spec_skip_props(d, p);
            if o < subs && subs <= d.len() {
                seq![
                    SpecNode {
                        off: o,
                        name: d.subrange(o + 4, ne),
                        props: p,
                        subs: subs,
                        depth: depth,
                    },
                ] + spec_nodes(d, s, subs, depth + 1)
            } else {
                seq![]
            }
        } else if tag == FDT_END_NODE {
            if depth >= 1 {
                spec_nodes(d, s, o + 4, (depth - 1) as nat)
            } else {
                seq![]
            }
        } else {
            seq![]
        }
    } else {
        seq![]
    }
}

/// The longest prefix of `ns` whose nodes all have depth at least `min`.
pub open spec fn take_above(ns: Seq<SpecNode>, min: nat) -> Seq<SpecNode>
    decreases ns.len(),
{
    if ns.len() == 0 {
        seq![]
    } else if ns[0].depth >= min {
        seq![ns[0]] + take_above(ns.drop_first(), min)
    } else {
        seq![]
    }
}

/// `take_above` cuts a stream where it first climbs above `min`: the
/// result is the prefix of the stream up to but not including the first
/// node shallower than `min`, and only that prefix.
pub proof fn lemma_take_above_shape(ns: Seq<SpecNode>, min: nat)
    ensures
        take_above(ns, min).len() <= ns.len(),
        forall|i: int|
            0 <= i < take_above(ns, min).len() ==> #[trigger] take_above(ns, min)[i] == ns[i]
                && ns[i].depth >= min,
        take_above(ns, min).len() < ns.len() ==> ns[take_above(ns, min).len() as int].depth < min,
    decreases ns.len(),
{
    if ns.len() > 0 && ns[0].depth >= min {
        lemma_take_above_shape(ns.drop_first(), min);
        let ta = take_above(ns, min);
        let rest = take_above(ns.drop_first(), min);
        assert forall|i: int| 0 <= i < ta.len() implies #[trigger] ta[i] == ns[i] && ns[i].depth
            >= min by {
            if i > 0 {
                assert(ta[i] == rest[i - 1]);
                assert(ns.drop_first()[i - 1] == ns[i]);
            }
        }
        if ta.len() < ns.len() {
            assert(ns.drop_first()[rest.len() as int] == ns[ta.len() as int]);
        }
    }
}

/// The entries of the memory reservation block starting at `o`: pairs of
/// big-endian 64-bit address and size, up to but not including the first
/// all-zero pair.
pub open spec fn spec_rsv(b: Seq<u8>, o: int) -> Seq<(u64, u64)>
    decreases b.len() - o,
{
    if o + 16 <= b.len() {
        let a = be64(b, o);
        let sz = be64(b, o + 8);
        if a == 0 && sz == 0 {
            seq![]
        } else {
            seq![(a, sz)] + spec_rsv(b, o + 16)
        }
    } else {
        seq![]
    }
}

/// Well-formedness of the memory reservation block at `o`: the stream of
/// pairs is closed by an all-zero sentinel pair that lies within bounds.
pub open spec fn wf_rsv(b: Seq<u8>, o: int) -> bool
    decreases b.len() - o,
{
    if o + 16 <= b.len() {
        let a = be64(b, o);
        let sz = be64(b, o + 8);
        (a == 0 && sz == 0) || wf_rsv(b, o + 16)
    } else {
        false
    }
}

/// The index of the first occurrence of byte `c` in `b` at or after `o`,
/// or `b.len()` when there is none.
pub open spec fn find_byte(b: Seq<u8>, c: u8, o: int) -> int
    decreases b.len() - o,
{
    if o >= b.len() {
        b.len() as int
    } else if b[o] == c {
        o
    } else {
        find_byte(b, c, o + 1)
    }
}

/// `find_byte` stays within `[o, b.len()]`, lands on `c` unless it
/// reaches the end, and skips no occurrence of `c` on the way.
pub proof fn lemma_find_byte(b: Seq<u8>, c: u8, o: int)
    requires
        0 <= o <= b.len(),
    ensures
        o <= find_byte(b, c, o) <= b.len(),
        find_byte(b, c, o) < b.len() ==> b[find_byte(b, c, o)] == c,
        forall|i: int| o <= i < find_byte(b, c, o) ==> b[i] != c,
    decreases b.len() - o,
{
    if o < b.len() && b[o] != c {
        lemma_find_byte(b, c, o + 1);
    }
}

/// The byte that separates a node name from its address part.
pub const NAME_AT: u8 = 0x40;

/// The byte that separates the segments of a node path.
pub const PATH_SEP: u8 = 0x2f;

/// The segment of `b` between its first and second `NAME_AT` bytes: the
/// address part of a node name.
pub open spec fn name_addr(b: Seq<u8>) -> Seq<u8> {
    let r = b.skip(find_byte(b, NAME_AT, 0) + 1);
    r.take(find_byte(r, NAME_AT, 0))
}

/// Whether a node named `n` matches a query `q`: the parts before the
/// first `@` must be equal, and when `q` carries an address part, `n`
/// must carry an equal one.
pub open spec fn match_name(n: Seq<u8>, q: Seq<u8>) -> bool {
    let ni = find_byte(n, NAME_AT, 0);
    let qi = find_byte(q, NAME_AT, 0);
    if qi == q.len() {
        n.take(ni) == q
    } else if ni == n.len() {
        false
    } else {
        n.take(ni) == q.take(qi) && name_addr(n) == name_addr(q)
    }
}

/// The segments of a slash-separated path; a path without separators is
/// one segment, which makes the split of any byte sequence non-empty.
pub open spec fn split_slash(b: Seq<u8>) -> Seq<Seq<u8>>
    decreases b.len(),
{
    let i = find_byte(b, PATH_SEP, 0);
    if 0 <= i < b.len() {
        seq![b.take(i)] + split_slash(b.skip(i + 1))
    } else {
        seq![b]
    }
}

/// A slash split always yields at least the part up to the end.
pub proof fn lemma_split_slash_nonempty(b: Seq<u8>)
    ensures
        split_slash(b).len() >= 1,
{
}

/// A slash split yields at most one segment per byte, plus one.
pub proof fn lemma_split_slash_len(b: Seq<u8>)
    ensures
        split_slash(b).len() <= b.len() + 1,
    decreases b.len(),
{
    let i = find_byte(b, PATH_SEP, 0);
    if 0 <= i < b.len() {
        lemma_split_slash_len(b.skip(i + 1));
    }
}

/// The bytes of the path segment that matches any name.
pub open spec fn wildcard_seg() -> Seq<u8> {
    "*".spec_bytes()
}

/// The first property of `pl` whose name is `name`.
pub open spec fn first_prop(pl: Seq<SpecProp>, name: Seq<u8>) -> Option<SpecProp>
    decreases pl.len(),
{
    if pl.len() == 0 {
        None
    } else if pl[0].name == name {
        Some(pl[0])
    } else {
        first_prop(pl.drop_first(), name)
    }
}

/// Finding the first property with a name is taking the head of the
/// name-filtered record list.
pub proof fn lemma_first_prop_filter(pl: Seq<SpecProp>, name: Seq<u8>)
    ensures
        ({
            let flt = pl.filter(|p: SpecProp| p.name == name);
            match first_prop(pl, name) {
                Some(p) => flt.len() > 0 && p == flt[0],
                None => flt.len() == 0,
            }
        }),
    decreases pl.len(),
{
    reveal(Seq::filter);
    let pred = |p: SpecProp| p.name == name;
    if pl.len() == 0 {
        assert(pl.filter(pred) =~= Seq::<SpecProp>::empty());
    } else {
        lemma_filter_head(pl, pred);
        lemma_first_prop_filter(pl.drop_first(), name);
    }
}

/// The phandle a property run assigns: the leading big-endian word of
/// the first property named `phandle`, none when the property is missing
/// or too short.
pub open spec fn spec_phandle(pl: Seq<SpecProp>) -> Option<u32> {
    match first_prop(pl, "phandle".spec_bytes()) {
        Some(p) => if p.value.len() >= 4 {
            Some(be32(p.value, 0))
        } else {
            None
        },
        None => None,
    }
}

/// Whether a property run marks compatibility with `key`: its first
/// property named `compatible` reads as UTF-8 whose NUL-separated pieces
/// contain `key`.
pub open spec fn spec_compatible(pl: Seq<SpecProp>, key: Seq<u8>) -> bool {
    match first_prop(pl, "compatible".spec_bytes()) {
        Some(p) => valid_utf8(p.value) && split_nul(p.value).contains(key),
        None => false,
    }
}

/// The cell count a property run assigns under `name`: the leading
/// big-endian word of that property, or two when it is missing or too
/// short.
pub open spec fn spec_cells(pl: Seq<SpecProp>, name: Seq<u8>) -> u32 {
    match first_prop(pl, name) {
        Some(p) => if p.value.len() >= 4 {
            be32(p.value, 0)
        } else {
            2
        },
        None => 2,
    }
}

/// Whether a node's first `phandle` property holds the given value.
pub open spec fn phandle_pred(d: Seq<u8>, s: Seq<u8>, phandle: u32) -> spec_fn(SpecNode) -> bool {
    |sn: SpecNode|
        match first_prop(spec_props(d, s, sn.props), "phandle".spec_bytes()) {
            Some(p) => phandle == be32(p.value, 0),
            None => false,
        }
}

/// Whether a node answers to one path segment: its name matches, or the
/// segment is the wildcard.
pub open spec fn seg_match(n: SpecNode, g: Seq<u8>) -> bool {
    match_name(n.name, g) || g == wildcard_seg()
}

/// One step of the path walker over the node stream `ns`: skip nodes
/// that are deeper than the matched prefix, follow a segment match one
/// level down, fall back to a node's own level when the walk leaves the
/// matched subtree, and emit the node that matches the last segment.
/// Returns that node, the stream after it, and the walker's depth there.
pub open spec fn wp_next(ns: Seq<SpecNode>, segs: Seq<Seq<u8>>, depth: int) -> Option<
    (SpecNode, Seq<SpecNode>, int),
>
    decreases ns.len(),
{
    if ns.len() == 0 {
        None
    } else {
        let n = ns[0];
        let rest = ns.drop_first();
        if n.depth == depth {
            if seg_match(n, segs[depth]) {
                if depth + 1 < segs.len() {
                    wp_next(rest, segs, depth + 1)
                } else {
                    Some((n, rest, depth))
                }
            } else {
                wp_next(rest, segs, depth)
            }
        } else if (n.depth as int) < depth {
            wp_next(rest, segs, n.depth as int)
        } else {
            wp_next(rest, segs, depth)
        }
    }
}

/// An unambiguous walk to a path's node: every node ahead stays at the
/// walker's level or deeper, so the walk never leaves the matched
/// prefix's subtree; at the walker's level only the path's own node
/// matches the pending segment, and it is met before the level closes;
/// from it the same holds one segment further, down to the last.
pub open spec fn chain_ahead(ns: Seq<SpecNode>, segs: Seq<Seq<u8>>, t: int) -> bool
    decreases ns.len(),
{
    if ns.len() == 0 {
        false
    } else {
        let n = ns[0];
        &&& n.depth >= t
        &&& if n.depth == t && seg_match(n, segs[t]) {
            if t + 1 < segs.len() {
                chain_ahead(ns.drop_first(), segs, t + 1)
            } else {
                true
            }
        } else {
            &&& (n.depth == t ==> !seg_match(n, segs[t]))
            &&& chain_ahead(ns.drop_first(), segs, t)
        }
    }
}

/// The node an unambiguous walk denotes: the node reached by matching
/// each pending segment in turn, one level down per segment.
pub open spec fn chain_node(ns: Seq<SpecNode>, segs: Seq<Seq<u8>>, t: int) -> SpecNode
    decreases ns.len(),
{
    if ns.len() == 0 {
        arbitrary()
    } else {
        let n = ns[0];
        if n.depth == t && seg_match(n, segs[t]) {
            if t + 1 < segs.len() {
                chain_node(ns.drop_first(), segs, t + 1)
            } else {
                n
            }
        } else {
            chain_node(ns.drop_first(), segs, t)
        }
    }
}

/// On a path whose match is unambiguous, the walker returns exactly the
/// node the path denotes: the walk meets no node below its level, so it
/// never falls back, and it emits the node that matched the last
/// segment, one level down per segment.
pub proof fn lemma_wp_follows_chain(ns: Seq<SpecNode>, segs: Seq<Seq<u8>>, t: int)
    requires
        0 <= t < segs.len(),
        chain_ahead(ns, segs, t),
    ensures
        wp_next(ns, segs, t) matches Some(x) && x.0 == chain_node(ns, segs, t) && x.2 == segs.len()
            - 1 && x.0.depth == segs.len() - 1 && seg_match(x.0, segs[segs.len() - 1]),
    decreases ns.len(),
{
    let n = ns[0];
    let rest = ns.drop_first();
    if n.depth == t && seg_match(n, segs[t]) {
        if t + 1 < segs.len() {
            lemma_wp_follows_chain(rest, segs, t + 1);
        }
    } else {
        lemma_wp_follows_chain(rest, segs, t);
    }
}

/// A wildcard segment matches any node at the walker's current level:
/// on such a node the walker either emits it, when the wildcard is the
/// last segment, or walks on one level deeper, whatever the node's name.
pub proof fn lemma_wp_wildcard(ns: Seq<SpecNode>, segs: Seq<Seq<u8>>, depth: int)
    requires
        ns.len() > 0,
        ns[0].depth == depth,
        0 <= depth < segs.len(),
        segs[depth] == wildcard_seg(),
    ensures
        depth + 1 < segs.len() ==> wp_next(ns, segs, depth) == wp_next(
            ns.drop_first(),
            segs,
            depth + 1,
        ),
        depth + 1 == segs.len() ==> wp_next(ns, segs, depth) == Some(
            (ns[0], ns.drop_first(), depth),
        ),
{
}

/// How filtering a non-empty sequence relates to filtering its tail:
/// the head stays exactly when it satisfies the predicate.
pub proof fn lemma_filter_head<A>(s: Seq<A>, pred: spec_fn(A) -> bool)
    requires
        s.len() > 0,
    ensures
        pred(s[0]) ==> s.filter(pred) == seq![s[0]] + s.drop_first().filter(pred),
        !pred(s[0]) ==> s.filter(pred) == s.drop_first().filter(pred),
{
    assert(s =~= seq![s[0]] + s.drop_first());
    Seq::filter_distributes_over_add(seq![s[0]], s.drop_first(), pred);
    reveal(Seq::filter);
    assert(seq![s[0]].drop_last() =~= Seq::<A>::empty());
    assert(Seq::<A>::empty().filter(pred) =~= Seq::<A>::empty());
    if pred(s[0]) {
        assert(seq![s[0]].filter(pred) =~= seq![s[0]]);
        assert(s.filter(pred) =~= seq![s[0]] + s.drop_first().filter(pred));
    } else {
        assert(seq![s[0]].filter(pred) =~= Seq::<A>::empty());
        assert(s.filter(pred) =~= s.drop_first().filter(pred));
    }
}

/// The NUL-separated pieces of `b`, with the empty piece a terminating
/// NUL would produce suppressed.
pub open spec fn split_nul(b: Seq<u8>) -> Seq<Seq<u8>>
    decreases b.len(),
{
    if b.len() == 0 {
        seq![]
    } else {
        let i = find_nul(b, 0);
        if 0 <= i < b.len() {
            seq![b.take(i)] + split_nul(b.skip(i + 1))
        } else {
            seq![b]
        }
    }
}

/// The three equations that pin `split_nul` down: nothing comes of the
/// empty sequence, a piece without NUL stands alone, and a NUL after a
/// NUL-free piece separates it from the split of the rest.
pub proof fn lemma_split_nul(a: Seq<u8>, rest: Seq<u8>)
    requires
        forall|i: int| 0 <= i < a.len() ==> a[i] != 0,
    ensures
        split_nul(Seq::<u8>::empty()) == Seq::<Seq<u8>>::empty(),
        a.len() > 0 ==> split_nul(a) == seq![a],
        split_nul(a + seq![0u8] + rest) == seq![a] + split_nul(rest),
{
    let b = a + seq![0u8] + rest;
    lemma_find_nul(a, 0);
    lemma_find_nul(b, 0);
    assert(b[a.len() as int] == 0);
    assert(forall|i: int| 0 <= i < a.len() ==> b[i] == a[i]);
    assert(find_nul(b, 0) == a.len()) by {
        lemma_find_nul_exact(b, a.len() as int);
    }
    if a.len() > 0 {
        assert(find_nul(a, 0) == a.len()) by {
            lemma_find_nul_exact_none(a);
        }
        assert(split_nul(a) == seq![a]);
    }
    assert(b.take(a.len() as int) =~= a);
    assert(b.skip(a.len() as int + 1) =~= rest);
}

/// `find_nul` from the start lands exactly on index `k` when the bytes
/// before `k` are non-NUL and the byte at `k` is NUL.
pub proof fn lemma_find_nul_exact(b: Seq<u8>, k: int)
    requires
        0 <= k < b.len(),
        b[k] == 0,
        forall|i: int| 0 <= i < k ==> b[i] != 0,
    ensures
        find_nul(b, 0) == k,
{
    lemma_find_nul(b, 0);
    if find_nul(b, 0) < k {
        assert(b[find_nul(b, 0)] == 0);
    }
}

/// `find_nul` from the start reaches the end when no byte is NUL.
pub proof fn lemma_find_nul_exact_none(b: Seq<u8>)
    requires
        forall|i: int| 0 <= i < b.len() ==> b[i] != 0,
    ensures
        find_nul(b, 0) == b.len(),
{
    lemma_find_nul(b, 0);
    if find_nul(b, 0) < b.len() {
        assert(b[find_nul(b, 0)] == 0);
    }
}

/// `find_nul` stays within `[o, b.len()]`, lands on a NUL byte unless it
/// reaches the end, and skips no NUL byte on the way.
pub proof fn lemma_find_nul(b: Seq<u8>, o: int)
    requires
        0 <= o <= b.len(),
    ensures
        o <= find_nul(b, o) <= b.len(),
        find_nul(b, o) < b.len() ==> b[find_nul(b, o)] == 0,
        forall|i: int| o <= i < find_nul(b, o) ==> b[i] != 0,
    decreases b.len() - o,
{
    if o < b.len() && b[o] != 0 {
        lemma_find_nul(b, o + 1);
    }
}

/// Rounding up to a multiple of `a` moves an offset forward by less than
/// `a` and lands on a multiple of `a`.
pub proof fn lemma_align_up(o: int, a: int)
    requires
        o >= 0,
        a >= 1,
    ensures
        o <= align_up(o, a) < o + a,
        align_up(o, a) % a == 0,
{
    let x = o + a - 1;
    lemma_fundamental_div_mod(x, a);
    lemma_mod_bound(x, a);
    lemma_mod_multiples_basic((x / a), a);
    assert((x / a) * a == a * (x / a)) by (nonlinear_arith);
    assert(align_up(o, a) == x - x % a);
}

/// On an offset that is not a multiple of `a`, rounding up adds exactly
/// what is missing to the next multiple.
pub proof fn lemma_align_up_offset(o: int, a: int)
    requires
        o >= 0,
        a >= 1,
        o % a != 0,
    ensures
        align_up(o, a) == o + a - o % a,
{
    let q = o / a;
    let r = o % a;
    lemma_fundamental_div_mod(o, a);
    lemma_mod_bound(o, a);
    assert(o + a - 1 == (q + 1) * a + (r - 1)) by (nonlinear_arith)
        requires
            o == a * q + r,
    ;
    lemma_fundamental_div_mod_converse_div(o + a - 1, a, q + 1, r - 1);
    assert(align_up(o, a) == (q + 1) * a);
    assert((q + 1) * a == a * q + a) by (nonlinear_arith);
}

/// On an offset that is already a multiple of `a`, rounding up changes
/// nothing.
pub proof fn lemma_align_up_multiple(o: int, a: int)
    requires
        o >= 0,
        a >= 1,
        o % a == 0,
    ensures
        align_up(o, a) == o,
{
    let q = o / a;
    lemma_fundamental_div_mod(o, a);
    assert(o + a - 1 == q * a + (a - 1)) by (nonlinear_arith)
        requires
            o == a * q,
    ;
    lemma_fundamental_div_mod_converse_div(o + a - 1, a, q, a - 1);
    assert(align_up(o, a) == q * a);
    assert(q * a == a * q) by (nonlinear_arith);
}

/// Rounding up to a multiple of four, specialised from `lemma_align_up`.
pub proof fn lemma_align4(o: int)
    requires
        o >= 0,
    ensures
        o <= align4(o) < o + 4,
        align4(o) % 4 == 0,
{
    lemma_align_up(o, 4);
}

/// `skip_nops` moves forward and stops on the first non-NOP token.
pub proof fn lemma_skip_nops(d: Seq<u8>, o: int)
    ensures
        o <= skip_nops(d, o),
        skip_nops(d, o) + 4 <= d.len() ==> be32(d, skip_nops(d, o)) != FDT_NOP,
    decreases d.len() - o,
{
    if o + 4 <= d.len() && be32(d, o) == FDT_NOP {
        lemma_skip_nops(d, o + 4);
    }
}

/// Stepping over leading NOP tokens changes neither well-formedness nor
/// the denoted node sequence, and the landing token is readable.
pub proof fn lemma_stream_skip_nops(d: Seq<u8>, s: Seq<u8>, o: int, depth: nat)
    requires
        wf_stream(d, s, o, depth),
    ensures
        skip_nops(d, o) + 4 <= d.len(),
        wf_stream(d, s, skip_nops(d, o), depth),
        spec_nodes(d, s, skip_nops(d, o), depth) == spec_nodes(d, s, o, depth),
    decreases d.len() - o,
{
    if o + 4 <= d.len() && be32(d, o) == FDT_NOP {
        lemma_stream_skip_nops(d, s, o + 4, depth);
    }
}

/// Stepping over leading NOP tokens changes neither the well-formedness
/// of a property run nor its records, nor where it ends, and the landing
/// token is readable.
pub proof fn lemma_props_skip_nops(d: Seq<u8>, s: Seq<u8>, o: int)
    requires
        wf_props(d, s, o),
    ensures
        skip_nops(d, o) + 4 <= d.len(),
        wf_props(d, s, skip_nops(d, o)),
        spec_props(d, s, skip_nops(d, o)) == spec_props(d, s, o),
        spec_skip_props(d, skip_nops(d, o)) == spec_skip_props(d, o),
    decreases d.len() - o,
{
    if o + 4 <= d.len() && be32(d, o) == FDT_NOP {
        lemma_props_skip_nops(d, s, o + 4);
    }
}

/// A well-formed stream with `depth` open nodes still holds at least one
/// closing token per open node plus the final `FDT_END`.
pub proof fn lemma_wf_depth_bound(d: Seq<u8>, s: Seq<u8>, o: int, depth: nat)
    requires
        wf_stream(d, s, o, depth),
    ensures
        o + 4 * depth + 4 <= d.len(),
    decreases d.len() - o,
{
    if o + 4 <= d.len() {
        let tag = be32(d, o);
        if tag == FDT_NOP {
            lemma_wf_depth_bound(d, s, o + 4, depth);
        } else if tag == FDT_BEGIN_NODE {
            let subs = spec_skip_props(d, align4(find_nul(d, o + 4) + 1));
            lemma_wf_depth_bound(d, s, subs, depth + 1);
        } else if tag == FDT_END_NODE {
            lemma_wf_depth_bound(d, s, o + 4, (depth - 1) as nat);
        }
    }
}

/// In a well-formed property run the skip offset moves forward, lands on
/// a readable token, and that token is neither a property nor a NOP.
pub proof fn lemma_wf_skip_props(d: Seq<u8>, s: Seq<u8>, o: int)
    requires
        wf_props(d, s, o),
    ensures
        o <= spec_skip_props(d, o),
        spec_skip_props(d, o) + 4 <= d.len(),
        be32(d, spec_skip_props(d, o)) != FDT_PROP,
        be32(d, spec_skip_props(d, o)) != FDT_NOP,
        wf_props(d, s, spec_skip_props(d, o)),
    decreases d.len() - o,
{
    if o + 4 <= d.len() {
        let tag = be32(d, o);
        if tag == FDT_NOP {
            lemma_wf_skip_props(d, s, o + 4);
        } else if tag == FDT_PROP {
            let next = align4(o + 12 + be32(d, o + 4) as int);
            lemma_wf_skip_props(d, s, next);
        }
    }
}

/// Every node of a stream walk sits at or after the walk's start, its
/// offset carries a begin-node token, and the walk visits offsets in
/// strictly increasing order: each begin-node token is yielded at most
/// once, in stream order, which makes the traversal a preorder visit.
pub proof fn lemma_nodes_preorder(d: Seq<u8>, s: Seq<u8>, o: int, depth: nat)
    requires
        0 <= o,
    ensures
        forall|i: int|
            0 <= i < spec_nodes(d, s, o, depth).len() ==> o <= (#[trigger] spec_nodes(
                d,
                s,
                o,
                depth,
            )[i]).off && spec_nodes(d, s, o, depth)[i].off + 4 <= d.len() && be32(
                d,
                spec_nodes(d, s, o, depth)[i].off,
            ) == FDT_BEGIN_NODE,
        forall|i: int, j: int|
            0 <= i < j < spec_nodes(d, s, o, depth).len() ==> (#[trigger] spec_nodes(
                d,
                s,
                o,
                depth,
            )[i]).off < (#[trigger] spec_nodes(d, s, o, depth)[j]).off,
    decreases d.len() - o,
{
    let ns = spec_nodes(d, s, o, depth);
    if o + 4 <= d.len() {
        let tag = be32(d, o);
        if tag == FDT_NOP {
            lemma_nodes_preorder(d, s, o + 4, depth);
            let rest = spec_nodes(d, s, o + 4, depth);
            assert(ns == rest);
            assert forall|i: int| 0 <= i < ns.len() implies o <= (#[trigger] ns[i]).off && ns[i].off
                + 4 <= d.len() && be32(d, ns[i].off) == FDT_BEGIN_NODE by {
                assert(ns[i] == rest[i]);
            }
        } else if tag == FDT_BEGIN_NODE {
            let ne = find_nul(d, o + 4);
            let p = align4(ne + 1);
            let subs = spec_skip_props(d, p);
            if o < subs && subs <= d.len() {
                lemma_nodes_preorder(d, s, subs, depth + 1);
                let rest = spec_nodes(d, s, subs, depth + 1);
                assert forall|i: int| 0 <= i < ns.len() implies o <= (#[trigger] ns[i]).off
                    && ns[i].off + 4 <= d.len() && be32(d, ns[i].off) == FDT_BEGIN_NODE by {
                    if i > 0 {
                        assert(ns[i] == rest[i - 1]);
                    }
                }
                assert forall|i: int, j: int| 0 <= i < j < ns.len() implies (
                #[trigger] ns[i]).off < (#[trigger] ns[j]).off by {
                    assert(ns[j] == rest[j - 1]);
                    if i > 0 {
                        assert(ns[i] == rest[i - 1]);
                    }
                }
            }
        } else if tag == FDT_END_NODE {
            if depth >= 1 {
                lemma_nodes_preorder(d, s, o + 4, (depth - 1) as nat);
                let rest = spec_nodes(d, s, o + 4, (depth - 1) as nat);
                assert(ns == rest);
                assert forall|i: int| 0 <= i < ns.len() implies o <= (#[trigger] ns[i]).off
                    && ns[i].off + 4 <= d.len() && be32(d, ns[i].off) == FDT_BEGIN_NODE by {
                    assert(ns[i] == rest[i]);
                }
            }
        }
    }
}

/// Every property record of a well-formed run lies wholly between the
/// start of the run and the offset where the run ends.
pub proof fn lemma_props_in_run(d: Seq<u8>, s: Seq<u8>, o: int)
    requires
        0 <= o,
        wf_props(d, s, o),
    ensures
        forall|i: int|
            0 <= i < spec_props(d, s, o).len() ==> o <= (#[trigger] spec_props(d, s, o)[i]).off
                && spec_props(d, s, o)[i].off < spec_props(d, s, o)[i].end && spec_props(
                d,
                s,
                o,
            )[i].end <= spec_skip_props(d, o),
    decreases d.len() - o,
{
    let pl = spec_props(d, s, o);
    if o + 4 <= d.len() {
        let tag = be32(d, o);
        if tag == FDT_NOP {
            lemma_props_in_run(d, s, o + 4);
            let rest = spec_props(d, s, o + 4);
            assert(pl == rest);
            assert forall|i: int| 0 <= i < pl.len() implies o <= (#[trigger] pl[i]).off && pl[i].off
                < pl[i].end && pl[i].end <= spec_skip_props(d, o) by {
                assert(pl[i] == rest[i]);
            }
        } else if tag == FDT_PROP {
            let l = be32(d, o + 4) as int;
            let next = align4(o + 12 + l);
            if o + 12 + l <= d.len() && next <= d.len() && o < next {
                lemma_props_in_run(d, s, next);
                lemma_align4(o + 12 + l);
                lemma_wf_skip_props(d, s, next);
                let rest = spec_props(d, s, next);
                assert forall|i: int| 0 <= i < pl.len() implies o <= (#[trigger] pl[i]).off
                    && pl[i].off < pl[i].end && pl[i].end <= spec_skip_props(d, o) by {
                    if i > 0 {
                        assert(pl[i] == rest[i - 1]);
                    }
                }
            }
        }
    }
}

/// All properties of a node lie strictly before all of its descendants
/// in the structure block: each property record ends at or before the
/// node's subnodes offset, and each descendant's begin token sits at or
/// after it.
pub proof fn lemma_props_before_subnodes(d: Seq<u8>, s: Seq<u8>, props: int, subs: int, depth: nat)
    requires
        0 <= props,
        wf_props(d, s, props),
        subs == spec_skip_props(d, props),
    ensures
        forall|i: int|
            0 <= i < spec_props(d, s, props).len() ==> (#[trigger] spec_props(
                d,
                s,
                props,
            )[i]).off < subs && spec_props(d, s, props)[i].end <= subs,
        forall|j: int|
            0 <= j < spec_nodes(d, s, subs, depth).len() ==> subs <= (#[trigger] spec_nodes(
                d,
                s,
                subs,
                depth,
            )[j]).off,
{
    lemma_props_in_run(d, s, props);
    lemma_wf_skip_props(d, s, props);
    lemma_nodes_preorder(d, s, subs, depth);
}

/// The children a parent node yields are exactly the nodes of its
/// subtree walk whose depth is one below the parent's: each child sits
/// at that depth and at or after the parent's subnodes offset, and every
/// subtree node at that depth is among the children.
pub proof fn lemma_children_exact(d: Seq<u8>, s: Seq<u8>, subs: int, depth: nat)
    requires
        0 <= subs,
    ensures
        ({
            let subtree = take_above(spec_nodes(d, s, subs, (depth + 1) as nat), (depth + 1) as nat);
            let children = subtree.filter(|sn: SpecNode| sn.depth == (depth + 1) as nat);
            &&& forall|i: int|
                0 <= i < children.len() ==> (#[trigger] children[i]).depth == depth + 1
                    && subs <= children[i].off
            &&& forall|j: int|
                0 <= j < subtree.len() && (#[trigger] subtree[j]).depth == depth + 1
                    ==> children.contains(subtree[j])
        }),
{
    let ns = spec_nodes(d, s, subs, (depth + 1) as nat);
    let subtree = take_above(ns, (depth + 1) as nat);
    let pred = |sn: SpecNode| sn.depth == (depth + 1) as nat;
    let children = subtree.filter(pred);
    lemma_nodes_preorder(d, s, subs, (depth + 1) as nat);
    lemma_take_above_shape(ns, (depth + 1) as nat);
    subtree.filter_lemma(pred);
    assert forall|i: int| 0 <= i < children.len() implies (#[trigger] children[i]).depth == depth
        + 1 && subs <= children[i].off by {
        assert(subtree.contains(children[i])) by {
            assert(children[i] == subtree.filter(pred)[i]);
            subtree.lemma_filter_contains_rev(pred, children[i]);
        }
        let j = choose|j: int| 0 <= j < subtree.len() && subtree[j] == children[i];
        assert(subtree[j] == ns[j]);
    }
}

/// In a well-formed stream that has nodes still open, every node the
/// walk yields lies strictly below the root level.
pub proof fn lemma_open_stream_depths(d: Seq<u8>, s: Seq<u8>, o: int, depth: nat)
    requires
        wf_stream(d, s, o, depth),
        depth >= 1,
    ensures
        forall|i: int|
            0 <= i < spec_nodes(d, s, o, depth).len() ==> (#[trigger] spec_nodes(
                d,
                s,
                o,
                depth,
            )[i]).depth >= 1,
    decreases d.len() - o,
{
    let ns = spec_nodes(d, s, o, depth);
    let tag = be32(d, o);
    if tag == FDT_NOP {
        lemma_open_stream_depths(d, s, o + 4, depth);
        let rest = spec_nodes(d, s, o + 4, depth);
        assert(ns == rest);
        assert forall|i: int| 0 <= i < ns.len() implies (#[trigger] ns[i]).depth >= 1 by {
            assert(ns[i] == rest[i]);
        }
    } else if tag == FDT_BEGIN_NODE {
        let ne = find_nul(d, o + 4);
        let subs = spec_skip_props(d, align4(ne + 1));
        lemma_open_stream_depths(d, s, subs, depth + 1);
        let rest = spec_nodes(d, s, subs, depth + 1);
        assert forall|i: int| 0 <= i < ns.len() implies (#[trigger] ns[i]).depth >= 1 by {
            if i > 0 {
                assert(ns[i] == rest[i - 1]);
            }
        }
    } else if tag == FDT_END_NODE {
        if depth == 1 {
            lemma_stream_skip_nops(d, s, o + 4, 0);
            assert(spec_nodes(d, s, o + 4, 0).len() == 0);
        } else {
            lemma_open_stream_depths(d, s, o + 4, (depth - 1) as nat);
            let rest = spec_nodes(d, s, o + 4, (depth - 1) as nat);
            assert(ns == rest);
            assert forall|i: int| 0 <= i < ns.len() implies (#[trigger] ns[i]).depth >= 1 by {
                assert(ns[i] == rest[i]);
            }
        }
    }
}

/// Of the nodes a well-formed stream denotes from the root level, the
/// first is the root, at depth zero, and it is the only one there: a
/// node has depth zero exactly when it is the root.
pub proof fn lemma_root_unique(d: Seq<u8>, s: Seq<u8>, o: int)
    requires
        wf_stream(d, s, o, 0),
    ensures
        spec_nodes(d, s, o, 0).len() > 0 ==> spec_nodes(d, s, o, 0)[0].depth == 0,
        forall|i: int|
            1 <= i < spec_nodes(d, s, o, 0).len() ==> (#[trigger] spec_nodes(
                d,
                s,
                o,
                0,
            )[i]).depth >= 1,
    decreases d.len() - o,
{
    let ns = spec_nodes(d, s, o, 0);
    let tag = be32(d, o);
    if tag == FDT_NOP {
        lemma_root_unique(d, s, o + 4);
        let rest = spec_nodes(d, s, o + 4, 0);
        assert(ns == rest);
        assert forall|i: int| 1 <= i < ns.len() implies (#[trigger] ns[i]).depth >= 1 by {
            assert(ns[i] == rest[i]);
        }
    } else if tag == FDT_BEGIN_NODE {
        let ne = find_nul(d, o + 4);
        let subs = spec_skip_props(d, align4(ne + 1));
        lemma_open_stream_depths(d, s, subs, 1);
        let rest = spec_nodes(d, s, subs, 1);
        assert forall|i: int| 1 <= i < ns.len() implies (#[trigger] ns[i]).depth >= 1 by {
            assert(ns[i] == rest[i - 1]);
        }
    }
}

} // verus!
