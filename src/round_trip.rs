//! Walking what the compressor writes gives back the relocations, grouped by
//! ascending type, each group in input order.
use vstd::prelude::*;
use crate::compress::{
    base_address, compressed, encode_deltas, group_bytes, group_offsets, groups_upto,
    header_bytes, lemma_group_len, offsets_valid, records, types_upto, wrapping_delta,
};
use crate::decompress::{walk_deltas, walk_group, walk_groups, walk_with, wrapping_sum};
use crate::endian::{le_bytes, le_value, lemma_le_round_trip};
use crate::error::ErrorKind;
use crate::uleb128::{decode_u32, lemma_u32_round_trip, uleb_encode};

verus! {

/// The offsets of a group as the walker reports them, each with its type.
pub open spec fn tagged(offs: Seq<u32>, t: u8) -> Seq<(u8, u32)> {
    offs.map_values(|o: u32| (t, o))
}

/// The relocations of the types from `t` on, by ascending type, each group in
/// input order.
pub open spec fn by_type_from(recs: Seq<(u32, u8)>, t: nat) -> Seq<(u8, u32)>
    decreases 256 - t,
{
    if t >= 256 {
        Seq::empty()
    } else {
        tagged(group_offsets(recs, t as u8), t as u8) + by_type_from(recs, t + 1)
    }
}

/// The relocations of a section grouped by ascending type.
pub open spec fn by_type(recs: Seq<(u32, u8)>) -> Seq<(u8, u32)> {
    by_type_from(recs, 0)
}

/// How many of the types from `t` on have a relocation.
spec fn types_from(recs: Seq<(u32, u8)>, t: nat) -> nat
    decreases 256 - t,
{
    if t >= 256 {
        0
    } else {
        (if group_offsets(recs, t as u8).len() > 0 {
            1nat
        } else {
            0nat
        }) + types_from(recs, t + 1)
    }
}

proof fn lemma_types_split(recs: Seq<(u32, u8)>, t: nat)
    requires
        t <= 256,
    ensures
        types_upto(recs, t) + types_from(recs, t) == types_upto(recs, 256),
    decreases 256 - t,
{
    if t < 256 {
        lemma_types_split(recs, t + 1);
    }
}

proof fn lemma_groups_prefix(recs: Seq<(u32, u8)>, a: nat, b: nat)
    requires
        a <= b,
    ensures
        groups_upto(recs, a).len() <= groups_upto(recs, b).len(),
        groups_upto(recs, b).take(groups_upto(recs, a).len() as int) == groups_upto(recs, a),
    decreases b,
{
    if a < b {
        lemma_groups_prefix(recs, a, (b - 1) as nat);
        let ga = groups_upto(recs, a);
        let gb1 = groups_upto(recs, (b - 1) as nat);
        assert(groups_upto(recs, b).take(ga.len() as int) =~= gb1.take(ga.len() as int));
    } else {
        assert(groups_upto(recs, a).take(groups_upto(recs, a).len() as int) =~= groups_upto(
            recs,
            a,
        ));
    }
}

/// Adding back a wrapping difference gives the later value.
proof fn lemma_wrapping(cur: u32, prev: u32)
    ensures
        wrapping_delta(cur, prev) < 0x1_0000_0000,
        wrapping_sum(prev, wrapping_delta(cur, prev)) == cur,
{
}

/// The deltas of a group, read from the front.
proof fn lemma_deltas_front(offs: Seq<u32>, base: u32)
    requires
        offs.len() > 0,
    ensures
        encode_deltas(offs, base) == uleb_encode(wrapping_delta(offs[0], base)) + encode_deltas(
            offs.skip(1),
            offs[0],
        ),
    decreases offs.len(),
{
    if offs.len() > 1 {
        let init = offs.drop_last();
        lemma_deltas_front(init, base);
        let tail = offs.skip(1);
        assert(tail.drop_last() =~= init.skip(1));
        assert(init[0] == offs[0]);
        assert(tail.last() == offs.last());
        let prev2 = if init.skip(1).len() == 0 {
            offs[0]
        } else {
            init.skip(1).last()
        };
        assert(prev2 == init.last());
        assert(encode_deltas(tail, offs[0]) == encode_deltas(init.skip(1), offs[0]) + uleb_encode(
            wrapping_delta(offs.last(), prev2),
        ));
        assert(encode_deltas(offs, base) == encode_deltas(init, base) + uleb_encode(
            wrapping_delta(offs.last(), init.last()),
        ));
        assert(encode_deltas(offs, base) =~= uleb_encode(wrapping_delta(offs[0], base))
            + encode_deltas(tail, offs[0]));
    } else {
        assert(offs.drop_last() =~= Seq::<u32>::empty());
        assert(offs.skip(1) =~= Seq::<u32>::empty());
        assert(encode_deltas(offs, base) == encode_deltas(offs.drop_last(), base) + uleb_encode(
            wrapping_delta(offs.last(), base),
        ));
        assert(encode_deltas(offs, base) =~= uleb_encode(wrapping_delta(offs[0], base))
            + encode_deltas(offs.skip(1), offs[0]));
    }
}

/// Decoding the encoding of `v` stored at `q`.
proof fn lemma_decode_at(d: Seq<u8>, q: int, v: u32, strict: bool)
    requires
        0 <= q,
        q + uleb_encode(v as nat).len() <= d.len(),
        d.subrange(q, q + uleb_encode(v as nat).len()) == uleb_encode(v as nat),
    ensures
        decode_u32(d.skip(q), strict) == Ok::<(nat, nat), ErrorKind>(
            (v as nat, uleb_encode(v as nat).len()),
        ),
{
    let len = uleb_encode(v as nat).len() as int;
    assert(d.skip(q) =~= uleb_encode(v as nat) + d.skip(q + len));
    lemma_u32_round_trip(v, d.skip(q + len), strict);
}

/// Walking the encoded deltas of `offs` gives back `offs`.
proof fn lemma_walk_deltas(d: Seq<u8>, q: nat, offs: Seq<u32>, t: u8, prev: u32, strict: bool)
    requires
        q + encode_deltas(offs, prev).len() <= d.len(),
        d.subrange(q as int, (q + encode_deltas(offs, prev).len()) as int) == encode_deltas(offs, prev),
    ensures
        walk_deltas(d, q, offs.len(), t, prev, strict) == (
            tagged(offs, t),
            Ok::<nat, ErrorKind>(q + encode_deltas(offs, prev).len()),
        ),
    decreases offs.len(),
{
    if offs.len() == 0 {
        assert(tagged(offs, t) =~= Seq::<(u8, u32)>::empty());
    } else {
        let o = offs[0];
        lemma_wrapping(o, prev);
        let dv = wrapping_delta(o, prev);
        let enc = uleb_encode(dv);
        let rest = encode_deltas(offs.skip(1), o);
        lemma_deltas_front(offs, prev);
        let all = encode_deltas(offs, prev);
        let qi = q as int;
        let el = enc.len() as int;
        assert(all == enc + rest);
        assert(d.subrange(qi, qi + all.len()) == all);
        assert forall|k: int| 0 <= k < el implies d.subrange(qi, qi + el)[k] == enc[k] by {
            assert(d.subrange(qi, qi + el)[k] == d[qi + k]);
            assert(d[qi + k] == d.subrange(qi, qi + all.len())[k]);
            assert(all[k] == enc[k]);
        }
        assert(d.subrange(qi, qi + el) =~= enc);
        lemma_decode_at(d, q as int, dv as u32, strict);
        assert forall|k: int| 0 <= k < rest.len() implies d.subrange(
            qi + el,
            qi + el + rest.len(),
        )[k] == rest[k] by {
            assert(d[qi + el + k] == d.subrange(qi, qi + all.len())[el + k]);
            assert(all[el + k] == rest[k]);
        }
        assert(d.subrange(qi + el, qi + el + rest.len()) =~= rest);
        lemma_walk_deltas(d, q + enc.len(), offs.skip(1), t, o, strict);
        assert((offs.len() - 1) as nat == offs.skip(1).len());
        assert(tagged(offs, t) =~= seq![(t, o)] + tagged(offs.skip(1), t));
    }
}

/// Walking one encoded group gives back its relocations.
proof fn lemma_walk_group(d: Seq<u8>, p: nat, recs: Seq<(u32, u8)>, t: u8, strict: bool)
    requires
        recs.len() <= u32::MAX,
        group_offsets(recs, t).len() > 0,
        p + group_bytes(recs, t).len() <= d.len(),
        d.subrange(p as int, (p + group_bytes(recs, t).len()) as int) == group_bytes(recs, t),
    ensures
        walk_group(d, p, base_address(recs), strict) == (
            tagged(group_offsets(recs, t), t),
            Ok::<nat, ErrorKind>(p + group_bytes(recs, t).len()),
        ),
{
    let offs = group_offsets(recs, t);
    let base = base_address(recs);
    let gb = group_bytes(recs, t);
    lemma_group_len(recs, t);
    let count = offs.len() as u32;
    let cenc = uleb_encode(count as nat);
    let deltas = encode_deltas(offs, base);
    assert(gb == seq![t] + cenc + deltas);
    let pi = p as int;
    let cl = cenc.len() as int;
    assert(d.subrange(pi, pi + gb.len()) == gb);
    assert(d[pi] == d.subrange(pi, pi + gb.len())[0]);
    assert forall|k: int| 0 <= k < cl implies d.subrange(pi + 1, pi + 1 + cl)[k] == cenc[k] by {
        assert(d[pi + 1 + k] == d.subrange(pi, pi + gb.len())[1 + k]);
        assert(gb[1 + k] == cenc[k]);
    }
    assert(d.subrange(pi + 1, pi + 1 + cl) =~= cenc);
    lemma_decode_at(d, pi + 1, count, strict);
    assert forall|k: int| 0 <= k < deltas.len() implies d.subrange(
        pi + 1 + cl,
        pi + 1 + cl + deltas.len(),
    )[k] == deltas[k] by {
        assert(d[pi + 1 + cl + k] == d.subrange(pi, pi + gb.len())[1 + cl + k]);
        assert(gb[1 + cl + k] == deltas[k]);
    }
    assert(d.subrange(pi + 1 + cl, pi + 1 + cl + deltas.len()) =~= deltas);
    lemma_walk_deltas(d, p + 1 + cenc.len(), offs, t, base, strict);
}

/// Walking the groups from type `t` on.
proof fn lemma_walk_groups(recs: Seq<(u32, u8)>, t: nat, strict: bool)
    requires
        t <= 256,
        recs.len() <= u32::MAX,
    ensures
        walk_groups(
            compressed(recs),
            5 + groups_upto(recs, t).len(),
            types_from(recs, t),
            base_address(recs),
            strict,
        ) == (by_type_from(recs, t), Ok::<nat, ErrorKind>(compressed(recs).len())),
    decreases 256 - t,
{
    let c = compressed(recs);
    let base = base_address(recs);
    assert(header_bytes(recs).len() == 5);
    if t == 256 {
        assert(by_type_from(recs, t) =~= Seq::<(u8, u32)>::empty());
    } else {
        lemma_walk_groups(recs, t + 1, strict);
        let gt = groups_upto(recs, t);
        let gt1 = groups_upto(recs, t + 1);
        assert(gt1 == gt + group_bytes(recs, t as u8));
        let offs = group_offsets(recs, t as u8);
        if offs.len() == 0 {
            assert(tagged(offs, t as u8) =~= Seq::<(u8, u32)>::empty());
            assert(by_type_from(recs, t) =~= by_type_from(recs, t + 1));
        } else {
            lemma_groups_prefix(recs, t + 1, 256);
            let all = groups_upto(recs, 256);
            let gb = group_bytes(recs, t as u8);
            let gl = gt.len() as int;
            assert(all.take(gt1.len() as int) == gt1);
            assert forall|k: int| 0 <= k < gb.len() implies c.subrange(5 + gl, 5 + gl + gb.len())[k]
                == gb[k] by {
                assert(c[5 + gl + k] == all[gl + k]);
                assert(all[gl + k] == all.take(gt1.len() as int)[gl + k]);
                assert(gt1[gl + k] == gb[k]);
            }
            assert(c.subrange(5 + gl, 5 + gl + gb.len()) =~= gb);
            lemma_walk_group(c, 5 + gt.len(), recs, t as u8, strict);
        }
    }
}

/// Walking the output of the compressor reports every relocation once: by
/// ascending type and, inside a type, in input order; it consumes the whole
/// output. This holds whenever the compressor accepts the section and the
/// group count fits its byte, under either validation of the integers.
pub proof fn lemma_round_trip(data: Seq<u8>, strict: bool)
    requires
        offsets_valid(records(data)),
        records(data).len() <= u32::MAX,
        types_upto(records(data), 256) < 256,
    ensures
        walk_with(compressed(records(data)), strict) == (
            by_type(records(data)),
            Ok::<nat, ErrorKind>(compressed(records(data)).len()),
        ),
{
    let recs = records(data);
    let c = compressed(recs);
    let base = base_address(recs);
    assert(groups_upto(recs, 0) =~= Seq::<u8>::empty());
    lemma_walk_groups(recs, 0, strict);
    lemma_types_split(recs, 0);
    assert(c[4] == (types_upto(recs, 256) % 256) as u8);
    assert(c.subrange(0, 4) =~= le_bytes(base));
    lemma_le_round_trip(base);
    assert(le_value(c) == le_value(le_bytes(base)));
}

} // verus!
