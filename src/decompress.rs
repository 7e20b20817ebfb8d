//! Walking a compact relocation section.
use vstd::prelude::*;
use crate::endian::{le_value, read_le_u32};
use crate::error::{Error, ErrorKind};
use crate::uleb128::{decode_u32, lemma_decode_u32_prefix, read_u32_with, Validation};

verus! {

/// `a + b` taken modulo `2^32`.
pub open spec fn wrapping_sum(a: u32, b: nat) -> u32 {
    ((a + b) % 0x1_0000_0000) as u32
}

/// The relocations reported by `count` deltas of type `t` that start at
/// `pos`, each added to the address before it (`addr` for the first), and
/// the position after them or the error that stops the walk.
pub open spec fn walk_deltas(data: Seq<u8>, pos: nat, count: nat, t: u8, addr: u32, strict: bool) -> (Seq<
    (u8, u32),
>, Result<nat, ErrorKind>)
    decreases count,
{
    if count == 0 {
        (Seq::empty(), Ok(pos))
    } else {
        match decode_u32(data.skip(pos as int), strict) {
            Err(k) => (Seq::empty(), Err(k)),
            Ok((d, n)) => {
                let a = wrapping_sum(addr, d);
                let rest = walk_deltas(data, pos + n, (count - 1) as nat, t, a, strict);
                (seq![(t, a)] + rest.0, rest.1)
            },
        }
    }
}

/// The walk of the group that starts at `pos`: its type byte, its entry
/// count, then its deltas, the first one against `base`.
pub open spec fn walk_group(data: Seq<u8>, pos: nat, base: u32, strict: bool) -> (Seq<(u8, u32)>, Result<
    nat,
    ErrorKind,
>) {
    if pos >= data.len() {
        (Seq::empty(), Err(ErrorKind::NotEnoughData))
    } else {
        match decode_u32(data.skip(pos + 1int), strict) {
            Err(k) => (Seq::empty(), Err(k)),
            Ok((count, n)) => walk_deltas(data, pos + 1 + n, count, data[pos as int], base, strict),
        }
    }
}

/// The walk of `count` groups from `pos` on.
pub open spec fn walk_groups(data: Seq<u8>, pos: nat, count: nat, base: u32, strict: bool) -> (Seq<
    (u8, u32),
>, Result<nat, ErrorKind>)
    decreases count,
{
    if count == 0 {
        (Seq::empty(), Ok(pos))
    } else {
        let first = walk_group(data, pos, base, strict);
        match first.1 {
            Err(k) => (first.0, Err(k)),
            Ok(p) => {
                let rest = walk_groups(data, p, (count - 1) as nat, base, strict);
                (first.0 + rest.0, rest.1)
            },
        }
    }
}

/// The walk of a compact section: the relocations reported, in order, and
/// the number of bytes consumed or the error that stops the walk; `strict`
/// says whether its integers are held to their width.
pub open spec fn walk_with(data: Seq<u8>, strict: bool) -> (Seq<(u8, u32)>, Result<nat, ErrorKind>) {
    if data.len() < 5 {
        (Seq::empty(), Err(ErrorKind::NotEnoughData))
    } else {
        walk_groups(data, 5, data[4] as nat, le_value(data), strict)
    }
}

/// The walk of a compact section under strict validation.
pub open spec fn walk(data: Seq<u8>) -> (Seq<(u8, u32)>, Result<nat, ErrorKind>) {
    walk_with(data, true)
}

proof fn lemma_deltas_truncated(
    data: Seq<u8>,
    m: nat,
    pos: nat,
    c: nat,
    t: u8,
    addr: u32,
    strict: bool,
)
    requires
        pos <= m <= data.len(),
    ensures
        walk_deltas(data.take(m as int), pos, c, t, addr, strict).0.is_prefix_of(
            walk_deltas(data, pos, c, t, addr, strict).0,
        ),
        match walk_deltas(data.take(m as int), pos, c, t, addr, strict).1 {
            Ok(p) => p <= m && walk_deltas(data.take(m as int), pos, c, t, addr, strict)
                == walk_deltas(data, pos, c, t, addr, strict),
            Err(_) => true,
        },
    decreases c,
{
    let short = data.take(m as int);
    if c > 0 {
        assert(short.skip(pos as int) =~= data.skip(pos as int).take(m - pos));
        lemma_decode_u32_prefix(data.skip(pos as int), (m - pos) as nat, strict);
        if let Ok((d, n)) = decode_u32(short.skip(pos as int), strict) {
            let a = wrapping_sum(addr, d);
            lemma_deltas_truncated(data, m, pos + n, (c - 1) as nat, t, a, strict);
            let x = walk_deltas(short, pos + n, (c - 1) as nat, t, a, strict).0;
            let y = walk_deltas(data, pos + n, (c - 1) as nat, t, a, strict).0;
            assert((seq![(t, a)] + x) =~= (seq![(t, a)] + y).subrange(0, (seq![(t, a)] + x).len() as int));
        }
    }
}

proof fn lemma_group_truncated(data: Seq<u8>, m: nat, pos: nat, base: u32, strict: bool)
    requires
        pos <= m <= data.len(),
    ensures
        walk_group(data.take(m as int), pos, base, strict).0.is_prefix_of(
            walk_group(data, pos, base, strict).0,
        ),
        match walk_group(data.take(m as int), pos, base, strict).1 {
            Ok(p) => p <= m && walk_group(data.take(m as int), pos, base, strict) == walk_group(
                data,
                pos,
                base,
                strict,
            ),
            Err(_) => true,
        },
{
    let short = data.take(m as int);
    if pos < m {
        assert(short[pos as int] == data[pos as int]);
        assert(short.skip(pos + 1int) =~= data.skip(pos + 1int).take(m - pos - 1));
        lemma_decode_u32_prefix(data.skip(pos + 1int), (m - pos - 1) as nat, strict);
        if let Ok((count, n)) = decode_u32(short.skip(pos + 1int), strict) {
            lemma_deltas_truncated(data, m, pos + 1 + n, count, data[pos as int], base, strict);
        }
    }
}

proof fn lemma_groups_truncated(
    data: Seq<u8>,
    m: nat,
    pos: nat,
    count: nat,
    base: u32,
    strict: bool,
)
    requires
        pos <= m <= data.len(),
    ensures
        walk_groups(data.take(m as int), pos, count, base, strict).0.is_prefix_of(
            walk_groups(data, pos, count, base, strict).0,
        ),
        match walk_groups(data.take(m as int), pos, count, base, strict).1 {
            Ok(_) => walk_groups(data.take(m as int), pos, count, base, strict) == walk_groups(
                data,
                pos,
                count,
                base,
                strict,
            ),
            Err(_) => true,
        },
    decreases count,
{
    let short = data.take(m as int);
    if count > 0 {
        lemma_group_truncated(data, m, pos, base, strict);
        let fa = walk_group(short, pos, base, strict);
        let fb = walk_group(data, pos, base, strict);
        match fa.1 {
            Ok(p) => {
                lemma_groups_truncated(data, m, p, (count - 1) as nat, base, strict);
                let x = walk_groups(short, p, (count - 1) as nat, base, strict).0;
                let y = walk_groups(data, p, (count - 1) as nat, base, strict).0;
                assert((fa.0 + x) =~= (fa.0 + y).subrange(0, (fa.0 + x).len() as int));
            },
            Err(_) => {
                let rest = match fb.1 {
                    Ok(p) => walk_groups(data, p, (count - 1) as nat, base, strict).0,
                    Err(_) => Seq::<(u8, u32)>::empty(),
                };
                assert(walk_groups(data, pos, count, base, strict).0 == fb.0 + rest);
                assert(fa.0 =~= (fb.0 + rest).subrange(0, fa.0.len() as int));
            },
        }
    }
}

/// Walking the first `m` bytes of a section reports a prefix of what walking
/// all of it reports; when that shorter walk succeeds, the two walks are the
/// same, so nothing after its end is read.
pub proof fn lemma_walk_truncated(data: Seq<u8>, m: nat, strict: bool)
    requires
        m <= data.len(),
    ensures
        walk_with(data.take(m as int), strict).0.is_prefix_of(walk_with(data, strict).0),
        walk_with(data.take(m as int), strict).1 is Ok ==> walk_with(data.take(m as int), strict)
            == walk_with(data, strict),
{
    let short = data.take(m as int);
    if m >= 5 {
        assert(short[4] == data[4]);
        assert(short[0] == data[0] && short[1] == data[1] && short[2] == data[2] && short[3]
            == data[3]);
        assert(le_value(short) == le_value(data));
        lemma_groups_truncated(data, m, 5, data[4] as nat, le_value(data), strict);
    } else {
        assert(Seq::<(u8, u32)>::empty() =~= walk_with(data, strict).0.subrange(0, 0));
    }
}

/// `op` may be called on each of `relocs`.
pub open spec fn handler_ready<F: FnMut(u8, u32) -> Result<(), Error>>(
    op: F,
    relocs: Seq<(u8, u32)>,
) -> bool {
    forall|i: int| 0 <= i < relocs.len() ==> #[trigger] call_requires(op, (relocs[i].0, relocs[i].1))
}

/// `op` was handed each of `relocs` and returned `Ok` for it.
pub open spec fn accepted_all<F: FnMut(u8, u32) -> Result<(), Error>>(
    op: F,
    relocs: Seq<(u8, u32)>,
) -> bool {
    forall|i: int|
        0 <= i < relocs.len() ==> #[trigger] call_ensures(
            op,
            (relocs[i].0, relocs[i].1),
            Ok::<(), Error>(()),
        )
}

/// `op` cannot fail on any of `relocs`.
pub open spec fn handler_accepts<F: FnMut(u8, u32) -> Result<(), Error>>(
    op: F,
    relocs: Seq<(u8, u32)>,
) -> bool {
    forall|i: int, o: Result<(), Error>|
        0 <= i < relocs.len() && #[trigger] call_ensures(op, (relocs[i].0, relocs[i].1), o)
            ==> o is Ok
}

/// `op` accepted the first `k` of `relocs` and returned `e` for the next one.
pub open spec fn failed_at<F: FnMut(u8, u32) -> Result<(), Error>>(
    op: F,
    relocs: Seq<(u8, u32)>,
    k: int,
    e: Error,
) -> bool {
    0 <= k < relocs.len() && accepted_all(op, relocs.take(k)) && call_ensures(
        op,
        (relocs[k].0, relocs[k].1),
        Err::<(), Error>(e),
    )
}

/// What handing the walk `w` to `op`, in order, returns: after `op` accepted
/// every relocation, the walk's own end position or error; otherwise the
/// error that `op` returned for the first relocation it refused.
pub open spec fn handed_over<F: FnMut(u8, u32) -> Result<(), Error>>(
    op: F,
    w: (Seq<(u8, u32)>, Result<nat, ErrorKind>),
    r: Result<usize, Error>,
) -> bool {
    match r {
        Ok(n) => w.1 == Ok::<nat, ErrorKind>(n as nat) && accepted_all(op, w.0),
        Err(e) => (w.1 == Err::<nat, ErrorKind>(e.spec_kind()) && accepted_all(op, w.0)) || exists|
            k: int,
        | #[trigger] failed_at(op, w.0, k, e),
    }
}

/// The relocations in the middle of a list are ready when the whole list is.
proof fn lemma_ready_within<F: FnMut(u8, u32) -> Result<(), Error>>(
    op: F,
    a: Seq<(u8, u32)>,
    b: Seq<(u8, u32)>,
    c: Seq<(u8, u32)>,
)
    requires
        handler_ready(op, a + b + c),
    ensures
        handler_ready(op, b),
{
    assert forall|i: int| 0 <= i < b.len() implies #[trigger] call_requires(
        op,
        (b[i].0, b[i].1),
    ) by {
        assert((a + b + c)[a.len() + i] == b[i]);
    }
}

/// Accepting two lists accepts the two together.
proof fn lemma_accepted_concat<F: FnMut(u8, u32) -> Result<(), Error>>(
    op: F,
    a: Seq<(u8, u32)>,
    b: Seq<(u8, u32)>,
)
    requires
        accepted_all(op, a),
        accepted_all(op, b),
    ensures
        accepted_all(op, a + b),
{
    assert forall|i: int| 0 <= i < (a + b).len() implies #[trigger] call_ensures(
        op,
        ((a + b)[i].0, (a + b)[i].1),
        Ok::<(), Error>(()),
    ) by {
        if i < a.len() {
            assert((a + b)[i] == a[i]);
        } else {
            assert((a + b)[i] == b[i - a.len()]);
        }
    }
}

/// A refusal inside `b`, after `a` was accepted, is a refusal inside `a + b + c`.
proof fn lemma_failed_shift<F: FnMut(u8, u32) -> Result<(), Error>>(
    op: F,
    a: Seq<(u8, u32)>,
    b: Seq<(u8, u32)>,
    c: Seq<(u8, u32)>,
    k: int,
    e: Error,
)
    requires
        accepted_all(op, a),
        failed_at(op, b, k, e),
    ensures
        failed_at(op, a + b + c, a.len() + k, e),
{
    let s = a + b + c;
    assert(s[a.len() + k] == b[k]);
    assert(s.take(a.len() + k) =~= a + b.take(k));
    lemma_accepted_concat(op, a, b.take(k));
}

/// A handler that cannot fail on the walk's relocations leaves the walk's
/// own result.
proof fn lemma_exact<F: FnMut(u8, u32) -> Result<(), Error>>(
    op: F,
    w: (Seq<(u8, u32)>, Result<nat, ErrorKind>),
    r: Result<usize, Error>,
)
    requires
        handed_over(op, w, r),
        handler_accepts(op, w.0),
    ensures
        match r {
            Ok(n) => w.1 == Ok::<nat, ErrorKind>(n as nat),
            Err(e) => w.1 == Err::<nat, ErrorKind>(e.spec_kind()),
        },
{
    if let Err(e) = r {
        if exists|k: int| #[trigger] failed_at(op, w.0, k, e) {
            let k = choose|k: int| #[trigger] failed_at(op, w.0, k, e);
            assert(call_ensures(op, (w.0[k].0, w.0[k].1), Err::<(), Error>(e)));
        }
    }
}

/// Reads the little-endian base address at the front of `data`.
fn read_u32_np(data: &[u8]) -> (r: Result<u32, Error>)
    ensures
        match r {
            Ok(v) => data@.len() >= 4 && v == le_value(data@),
            Err(e) => data@.len() < 4 && e.spec_kind() == ErrorKind::NotEnoughData,
        },
{
    if data.len() >= 4 {
        Ok(read_le_u32(data))
    } else {
        Err(Error::new(ErrorKind::NotEnoughData))
    }
}

/// Reads the byte at `index`.
fn slice_read_u8(data: &[u8], index: usize) -> (r: Result<u8, Error>)
    ensures
        match r {
            Ok(b) => index < data@.len() && b == data@[index as int],
            Err(e) => index >= data@.len() && e.spec_kind() == ErrorKind::NotEnoughData,
        },
{
    if index < data.len() {
        Ok(data[index])
    } else {
        Err(Error::new(ErrorKind::NotEnoughData))
    }
}

/// Decodes the variable-length integer at `pos` and returns it with the
/// number of bytes it takes.
fn read_varint_at(data: &[u8], pos: usize, validation: Validation) -> (r: Result<
    (u32, usize),
    Error,
>)
    requires
        pos <= data@.len(),
    ensures
        match r {
            Ok((v, n)) => decode_u32(data@.skip(pos as int), validation == Validation::Strict)
                == Ok::<(nat, nat), ErrorKind>((v as nat, n as nat)) && pos + n <= data@.len(),
            Err(e) => decode_u32(data@.skip(pos as int), validation == Validation::Strict) == Err::<
                (nat, nat),
                ErrorKind,
            >(e.spec_kind()),
        },
{
    let rest = vstd::slice::slice_subrange(data, pos, data.len());
    assert(rest@ =~= data@.skip(pos as int));
    let mut v: u32 = 0;
    let n = read_u32_with(rest, &mut v, validation)?;
    proof {
        lemma_scan_within(rest@, 0, 4, 15, validation == Validation::Strict);
    }
    Ok((v, n))
}

proof fn lemma_scan_within(bytes: Seq<u8>, i: nat, last: nat, last_max: nat, strict: bool)
    ensures
        match crate::uleb128::uleb_scan(bytes, i, last, last_max, strict) {
            Ok(n) => n <= bytes.len(),
            Err(_) => true,
        },
    decreases bytes.len() - i,
{
    if i < bytes.len() {
        lemma_scan_within(bytes, i + 1, last, last_max, strict);
    }
}

/// Adds `d` to `a`, wrapping around.
fn add_wrapping(a: u32, d: u32) -> (r: u32)
    ensures
        r == wrapping_sum(a, d as nat),
{
    if d <= u32::MAX - a {
        a + d
    } else {
        d - (u32::MAX - a) - 1
    }
}

/// Walks the group that starts at `pos`, calls `op` for each of its
/// relocations, and returns the position after the group.
fn elf32_relocate_group<F>(
    data: &[u8],
    pos: usize,
    address: u32,
    op: &mut F,
    validation: Validation,
) -> (r: Result<usize, Error>) where F: FnMut(u8, u32) -> Result<(), Error>
    requires
        handler_ready(
            *old(op),
            walk_group(data@, pos as nat, address, validation == Validation::Strict).0,
        ),
    ensures
        *final(op) == *old(op),
        handed_over(
            *old(op),
            walk_group(data@, pos as nat, address, validation == Validation::Strict),
            r,
        ),
{
    let ghost strict = validation == Validation::Strict;
    let ghost w = walk_group(data@, pos as nat, address, strict);
    let ghost handler = *op;
    let relocation_type = slice_read_u8(data, pos)?;
    assert(pos < data.len());
    let (count, n) = read_varint_at(data, pos + 1, validation)?;
    let mut index: usize = pos + 1 + n;
    let mut addr: u32 = address;
    let mut remaining: u32 = count;
    let ghost mut emitted: Seq<(u8, u32)> = Seq::empty();
    assert(w == walk_deltas(data@, index as nat, count as nat, relocation_type, address, strict));
    while remaining > 0
        invariant
            strict == (validation == Validation::Strict),
            w == walk_group(data@, pos as nat, address, strict),
            *op == handler,
            handler == *old(op),
            handler_ready(handler, w.0),
            accepted_all(handler, emitted),
            index <= data@.len(),
            w.0 == emitted + walk_deltas(
                data@,
                index as nat,
                remaining as nat,
                relocation_type,
                addr,
                strict,
            ).0,
            w.1 == walk_deltas(data@, index as nat, remaining as nat, relocation_type, addr, strict).1,
        decreases remaining,
    {
        let ghost tail = walk_deltas(
            data@,
            index as nat,
            remaining as nat,
            relocation_type,
            addr,
            strict,
        );
        let (offset, n) = match read_varint_at(data, index, validation) {
            Ok(x) => x,
            Err(e) => {
                assert(tail.1 == Err::<nat, ErrorKind>(e.spec_kind()));
                assert(w.0 =~= emitted);
                return Err(e);
            },
        };
        addr = add_wrapping(addr, offset);
        let ghost next = walk_deltas(
            data@,
            (index + n) as nat,
            (remaining - 1) as nat,
            relocation_type,
            addr,
            strict,
        );
        assert(tail.0 == seq![(relocation_type, addr)] + next.0);
        let ghost i = emitted.len() as int;
        assert(w.0[i] == (relocation_type, addr));
        assert(call_requires(handler, (w.0[i].0, w.0[i].1)));
        let res = op(relocation_type, addr);
        assert(call_ensures(handler, (relocation_type, addr), res));
        match res {
            Ok(u) => {
                assert(res == Ok::<(), Error>(u));
                assert(u == ());
            },
            Err(e) => {
                proof {
                    assert(w.0.take(i) =~= emitted);
                    assert(call_ensures(handler, (w.0[i].0, w.0[i].1), Err::<(), Error>(e)));
                    assert(failed_at(handler, w.0, i, e));
                }
                return Err(e);
            },
        }
        proof {
            lemma_accepted_concat(handler, emitted, seq![(relocation_type, addr)]);
            emitted = emitted + seq![(relocation_type, addr)];
            assert(w.0 =~= emitted + next.0);
        }
        assert(index + n <= data.len());
        index = index + n;
        remaining = remaining - 1;
    }
    assert(w.0 =~= emitted);
    Ok(index)
}

/// Processes a compressed ELF32 relocation section under the given validation
/// of its integers and calls `op` for every relocation, in the order of the
/// section; returns the number of bytes consumed.
///
/// `op` is handed the walk's relocations one by one, in order. The walk stops
/// at the first malformed part of the section, with that error after `op`
/// accepted every relocation before it, or at the first relocation that `op`
/// refuses, with the very error that `op` returned.
pub fn elf32_relocate_with<F>(data: &[u8], op: &mut F, validation: Validation) -> (r: Result<
    usize,
    Error,
>) where F: FnMut(u8, u32) -> Result<(), Error>
    requires
        handler_ready(*old(op), walk_with(data@, validation == Validation::Strict).0),
    ensures
        *final(op) == *old(op),
        handed_over(*old(op), walk_with(data@, validation == Validation::Strict), r),
        handler_accepts(*old(op), walk_with(data@, validation == Validation::Strict).0) ==> match r {
            Ok(n) => walk_with(data@, validation == Validation::Strict).1 == Ok::<nat, ErrorKind>(
                n as nat,
            ),
            Err(e) => walk_with(data@, validation == Validation::Strict).1 == Err::<
                nat,
                ErrorKind,
            >(e.spec_kind()),
        },
{
    let ghost strict = validation == Validation::Strict;
    let ghost w = walk_with(data@, strict);
    let ghost handler = *op;
    let base_address = read_u32_np(data)?;
    let mut count = slice_read_u8(data, 4)?;
    let mut index: usize = 5;
    let ghost mut emitted: Seq<(u8, u32)> = Seq::empty();
    assert(w.0 =~= emitted + w.0);
    while count > 0
        invariant
            strict == (validation == Validation::Strict),
            w == walk_with(data@, strict),
            *op == handler,
            handler == *old(op),
            handler_ready(handler, w.0),
            accepted_all(handler, emitted),
            data@.len() >= 5,
            base_address == le_value(data@),
            w.0 == emitted + walk_groups(data@, index as nat, count as nat, base_address, strict).0,
            w.1 == walk_groups(data@, index as nat, count as nat, base_address, strict).1,
        decreases count,
    {
        let ghost g = walk_group(data@, index as nat, base_address, strict);
        let ghost rest = match g.1 {
            Ok(p) => walk_groups(data@, p, (count - 1) as nat, base_address, strict).0,
            Err(_) => Seq::<(u8, u32)>::empty(),
        };
        assert(w.0 =~= emitted + g.0 + rest);
        proof {
            lemma_ready_within(handler, emitted, g.0, rest);
        }
        let r = elf32_relocate_group(data, index, base_address, op, validation);
        match r {
            Ok(p) => {
                proof {
                    lemma_accepted_concat(handler, emitted, g.0);
                    emitted = emitted + g.0;
                    assert(w.0 =~= emitted + walk_groups(
                        data@,
                        p as nat,
                        (count - 1) as nat,
                        base_address,
                        strict,
                    ).0);
                }
                index = p;
            },
            Err(e) => {
                proof {
                    if exists|k: int| #[trigger] failed_at(handler, g.0, k, e) {
                        let k = choose|k: int| #[trigger] failed_at(handler, g.0, k, e);
                        lemma_failed_shift(handler, emitted, g.0, rest, k, e);
                        assert(failed_at(handler, w.0, emitted.len() + k, e));
                    } else {
                        lemma_accepted_concat(handler, emitted, g.0);
                        assert(w.0 =~= emitted + g.0);
                    }
                    if handler_accepts(handler, w.0) {
                        lemma_exact(handler, w, Err::<usize, Error>(e));
                    }
                }
                return Err(e);
            },
        }
        count = count - 1;
    }
    proof {
        assert(w.0 =~= emitted);
        if handler_accepts(handler, w.0) {
            lemma_exact(handler, w, Ok::<usize, Error>(index));
        }
    }
    Ok(index)
}

/// Processes a compressed ELF32 relocation section and calls `op` for every
/// relocation, in the order of the section; returns the number of bytes
/// consumed. Overlong or overflowing integers make the section invalid.
///
/// `op` is handed the walk's relocations one by one, in order; the result is
/// the walk's own end position or error once `op` accepted all of them, or
/// the very error that `op` returned for the first one it refused.
pub fn elf32_relocate<F>(data: &[u8], op: &mut F) -> (r: Result<usize, Error>) where
    F: FnMut(u8, u32) -> Result<(), Error>,
    requires
        handler_ready(*old(op), walk(data@).0),
    ensures
        *final(op) == *old(op),
        handed_over(*old(op), walk(data@), r),
        handler_accepts(*old(op), walk(data@).0) ==> match r {
            Ok(n) => walk(data@).1 == Ok::<nat, ErrorKind>(n as nat),
            Err(e) => walk(data@).1 == Err::<nat, ErrorKind>(e.spec_kind()),
        },
{
    elf32_relocate_with(data, op, Validation::Strict)
}

} // verus!
