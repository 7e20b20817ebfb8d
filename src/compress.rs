//! Compression of an ELF32 relocation section into the compact layout.
use vstd::prelude::*;
use crate::endian::{le_bytes, le_value, read_le_u32, write_le_u32};
use crate::error::{Error, ErrorKind};
use crate::uleb128::{lemma_encode_u32_len, uleb_encode, write_u32};

verus! {

/// The relocation `(offset, type)` held by the eight bytes at `pos`: the
/// offset, then the info word, whose low byte is the type.
pub open spec fn record_from(data: Seq<u8>, pos: int) -> (u32, u8) {
    (le_value(data.subrange(pos, pos + 4)), (le_value(data.subrange(pos + 4, pos + 8)) % 0x100) as u8)
}

/// The relocations of a section: one for each complete eight-byte record, in
/// order. A trailing partial record is not one.
pub open spec fn records(data: Seq<u8>) -> Seq<(u32, u8)> {
    Seq::new(data.len() / 8, |i: int| record_from(data, 8 * i))
}

/// The offset of the first relocation, or the largest `u32` where there is none.
pub open spec fn base_address(recs: Seq<(u32, u8)>) -> u32 {
    if recs.len() == 0 {
        0xFFFF_FFFF
    } else {
        recs[0].0
    }
}

/// No relocation lies below the first one.
pub open spec fn offsets_valid(recs: Seq<(u32, u8)>) -> bool {
    forall|i: int| 0 <= i < recs.len() ==> #[trigger] recs[i].0 >= recs[0].0
}

/// The offsets of the relocations of type `t`, in input order.
pub open spec fn group_offsets(recs: Seq<(u32, u8)>, t: u8) -> Seq<u32>
    decreases recs.len(),
{
    if recs.len() == 0 {
        Seq::empty()
    } else {
        let prev = group_offsets(recs.drop_last(), t);
        if recs.last().1 == t {
            prev.push(recs.last().0)
        } else {
            prev
        }
    }
}

/// `cur - prev` taken modulo `2^32`.
pub open spec fn wrapping_delta(cur: u32, prev: u32) -> nat {
    if cur >= prev {
        (cur - prev) as nat
    } else {
        (cur + 0x1_0000_0000 - prev) as nat
    }
}

/// The encoded deltas of a group: the first offset against `base`, each later
/// one against the one before it.
pub open spec fn encode_deltas(offs: Seq<u32>, base: u32) -> Seq<u8>
    decreases offs.len(),
{
    if offs.len() == 0 {
        Seq::empty()
    } else {
        let init = offs.drop_last();
        let prev = if init.len() == 0 {
            base
        } else {
            init.last()
        };
        encode_deltas(init, base) + uleb_encode(wrapping_delta(offs.last(), prev))
    }
}

/// The bytes of the group of type `t`: its type, its entry count and its
/// deltas; nothing where no relocation has that type.
pub open spec fn group_bytes(recs: Seq<(u32, u8)>, t: u8) -> Seq<u8> {
    let offs = group_offsets(recs, t);
    if offs.len() == 0 {
        Seq::empty()
    } else {
        seq![t] + uleb_encode(offs.len()) + encode_deltas(offs, base_address(recs))
    }
}

/// The groups of the types below `t`, in ascending type order.
pub open spec fn groups_upto(recs: Seq<(u32, u8)>, t: nat) -> Seq<u8>
    decreases t,
{
    if t == 0 {
        Seq::empty()
    } else {
        groups_upto(recs, (t - 1) as nat) + group_bytes(recs, (t - 1) as u8)
    }
}

/// How many of the types below `t` have a relocation.
pub open spec fn types_upto(recs: Seq<(u32, u8)>, t: nat) -> nat
    decreases t,
{
    if t == 0 {
        0
    } else {
        types_upto(recs, (t - 1) as nat) + if group_offsets(recs, (t - 1) as u8).len() > 0 {
            1nat
        } else {
            0nat
        }
    }
}

/// The header: the base address, then the number of groups in one byte.
pub open spec fn header_bytes(recs: Seq<(u32, u8)>) -> Seq<u8> {
    le_bytes(base_address(recs)) + seq![(types_upto(recs, 256) % 256) as u8]
}

/// The compact layout of a list of relocations.
pub open spec fn compressed(recs: Seq<(u32, u8)>) -> Seq<u8> {
    header_bytes(recs) + groups_upto(recs, 256)
}

/// Representation of a regular ELF32 relocation.
#[derive(Debug)]
pub struct Elf32Rel {
    offset: u32,
    relocation_type: u8,
}

impl Elf32Rel {
    /// The relocation as `(offset, type)`.
    pub closed spec fn spec_view(&self) -> (u32, u8) {
        (self.offset, self.relocation_type)
    }

    /// Reads the eight-byte record that starts at `*position` in `data` and
    /// moves `*position` past it.
    pub fn from_memory(data: &[u8], position: &mut usize) -> (r: Result<Self, Error>)
        ensures
            match r {
                Ok(rel) => *old(position) + 8 <= data@.len() && rel.spec_view() == record_from(
                    data@,
                    *old(position) as int,
                ) && *final(position) == *old(position) + 8,
                Err(e) => e.spec_kind() == ErrorKind::NotEnoughData && *old(position) + 8
                    > data@.len() && *final(position) == *old(position),
            },
    {
        let pos = *position;
        if pos > data.len() || data.len() - pos < 8 {
            return Err(Error::new(ErrorKind::NotEnoughData));
        }
        let offset = read_le_u32(vstd::slice::slice_subrange(data, pos, pos + 4));
        let info = read_le_u32(vstd::slice::slice_subrange(data, pos + 4, pos + 8));
        *position = pos + 8;
        Ok(Self { offset, relocation_type: (info % 0x100) as u8 })
    }

    /// Returns the offset of the relocation.
    pub fn offset(&self) -> (r: u32)
        ensures
            r == self.spec_view().0,
    {
        self.offset
    }

    /// Returns the type of the relocation.
    pub fn relocation_type(&self) -> (r: u8)
        ensures
            r == self.spec_view().1,
    {
        self.relocation_type
    }
}

/// Stores `b` at `pos` and returns the position after it.
fn put_byte(output: &mut [u8], pos: usize, b: u8) -> (r: Result<usize, Error>)
    requires
        pos <= old(output)@.len(),
    ensures
        final(output)@.len() == old(output)@.len(),
        match r {
            Ok(p) => p == pos + 1 && p <= old(output)@.len() && final(output)@.take(p as int) == old(output)@.take(
                pos as int,
            ).push(b) && final(output)@.skip(p as int) == old(output)@.skip(p as int),
            Err(e) => e.spec_kind() == ErrorKind::BufferSmall && pos + 1 > old(output)@.len(),
        },
{
    if pos >= output.len() {
        return Err(Error::new(ErrorKind::BufferSmall));
    }
    output[pos] = b;
    proof {
        assert(output@.take(pos + 1) =~= old(output)@.take(pos as int).push(b));
        assert(output@.skip(pos + 1) =~= old(output)@.skip(pos + 1));
    }
    Ok(pos + 1)
}

/// Stores the ULEB128 encoding of `v` at `pos` and returns the position
/// after it.
fn put_varint(output: &mut [u8], pos: usize, v: u32) -> (r: Result<usize, Error>)
    requires
        pos <= old(output)@.len(),
    ensures
        final(output)@.len() == old(output)@.len(),
        match r {
            Ok(p) => p == pos + uleb_encode(v as nat).len() && p <= old(output)@.len()
                && final(output)@.take(p as int)
                == old(output)@.take(pos as int) + uleb_encode(v as nat)
                && final(output)@.skip(p as int) == old(output)@.skip(p as int),
            Err(e) => e.spec_kind() == ErrorKind::BufferSmall && pos + uleb_encode(v as nat).len()
                > old(output)@.len(),
        },
{
    let mut tmp: Vec<u8> = vec![0u8; 5];
    proof {
        lemma_encode_u32_len(v);
    }
    let len = match write_u32(v, tmp.as_mut_slice()) {
        Ok(n) => n,
        Err(e) => {
            return Err(e);
        },
    };
    if len > output.len() - pos {
        return Err(Error::new(ErrorKind::BufferSmall));
    }
    assert(tmp@.take(len as int) =~= uleb_encode(v as nat));
    let mut i: usize = 0;
    while i < len
        invariant
            i <= len,
            len <= 5,
            tmp@.len() == 5,
            len == uleb_encode(v as nat).len(),
            tmp@.take(len as int) == uleb_encode(v as nat),
            output@.len() == old(output)@.len(),
            pos + len <= output.len(),
            output@.take(pos + i) == old(output)@.take(pos as int) + uleb_encode(v as nat).take(
                i as int,
            ),
            output@.skip(pos + len) == old(output)@.skip(pos + len),
        decreases len - i,
    {
        let ghost prev = output@;
        output[pos + i] = tmp[i];
        proof {
            assert(output@ == prev.update(pos + i, tmp@[i as int]));
            assert(output@.skip(pos + len) =~= prev.skip(pos + len));
            assert(output@.take(pos + i + 1) =~= prev.take(pos + i).push(tmp@[i as int]));
            assert(uleb_encode(v as nat).take(i + 1) =~= uleb_encode(v as nat).take(i as int).push(
                uleb_encode(v as nat)[i as int],
            ));
            assert(tmp@[i as int] == uleb_encode(v as nat)[i as int]);
            assert(output@.take(pos + i + 1) =~= old(output)@.take(pos as int) + uleb_encode(
                v as nat,
            ).take(i + 1));
        }
        i = i + 1;
    }
    assert(uleb_encode(v as nat).take(len as int) =~= uleb_encode(v as nat));
    Ok(pos + len)
}

/// Bytes from `q` on that stayed as they were from `p` on, and then from `q2`
/// on, are still as they were.
proof fn lemma_skip_chain(old: Seq<u8>, mid: Seq<u8>, fin: Seq<u8>, q: int, q2: int)
    requires
        0 <= q <= q2 <= old.len(),
        mid.len() == old.len(),
        fin.len() == old.len(),
        mid.skip(q) == old.skip(q),
        fin.skip(q2) == mid.skip(q2),
    ensures
        fin.skip(q2) == old.skip(q2),
{
    assert forall|k: int| 0 <= k < old.len() - q2 implies mid.skip(q2)[k] == old.skip(q2)[k] by {
        assert(mid.skip(q2)[k] == mid.skip(q)[q2 - q + k]);
        assert(old.skip(q2)[k] == old.skip(q)[q2 - q + k]);
    }
    assert(mid.skip(q2) =~= old.skip(q2));
}

/// The wrapping difference `cur - prev`.
fn delta(cur: u32, prev: u32) -> (r: u32)
    ensures
        r as nat == wrapping_delta(cur, prev),
{
    if cur >= prev {
        cur - prev
    } else {
        (u32::MAX - prev) + cur + 1
    }
}

proof fn lemma_take_last(recs: Seq<(u32, u8)>, j: int)
    requires
        0 <= j < recs.len(),
    ensures
        recs.take(j + 1).drop_last() == recs.take(j),
        recs.take(j + 1).last() == recs[j],
        recs.take(j + 1).len() == j + 1,
{
    assert(recs.take(j + 1).drop_last() =~= recs.take(j));
}

/// A group holds no more relocations than the section.
pub proof fn lemma_group_len(recs: Seq<(u32, u8)>, t: u8)
    ensures
        group_offsets(recs, t).len() <= recs.len(),
    decreases recs.len(),
{
    if recs.len() > 0 {
        lemma_group_len(recs.drop_last(), t);
    }
}

/// Encoding more of a group never gives fewer bytes.
proof fn lemma_deltas_grow(s1: Seq<u32>, s2: Seq<u32>, base: u32)
    requires
        s1.len() <= s2.len(),
        s2.take(s1.len() as int) == s1,
    ensures
        encode_deltas(s1, base).len() <= encode_deltas(s2, base).len(),
    decreases s2.len(),
{
    if s1.len() < s2.len() {
        assert(s2.drop_last().take(s1.len() as int) =~= s1);
        lemma_deltas_grow(s1, s2.drop_last(), base);
    } else {
        assert(s1 =~= s2);
    }
}

/// The groups below `a` take no more bytes than those below `b`.
proof fn lemma_groups_grow(recs: Seq<(u32, u8)>, a: nat, b: nat)
    requires
        a <= b,
    ensures
        groups_upto(recs, a).len() <= groups_upto(recs, b).len(),
    decreases b,
{
    if a < b {
        lemma_groups_grow(recs, a, (b - 1) as nat);
    }
}

proof fn lemma_groups_step(recs: Seq<(u32, u8)>, t: nat)
    requires
        t < 256,
    ensures
        groups_upto(recs, t + 1) == groups_upto(recs, t) + group_bytes(recs, t as u8),
{
}

/// A group that is written lies inside the whole layout.
proof fn lemma_group_within(recs: Seq<(u32, u8)>, t: nat)
    requires
        t < 256,
    ensures
        header_bytes(recs).len() + groups_upto(recs, t).len() + group_bytes(recs, t as u8).len()
            <= compressed(recs).len(),
{
    lemma_groups_grow(recs, t + 1, 256);
    lemma_groups_step(recs, t);
}

/// Representation of a regular ELF32 relocation section.
pub struct Elf32Relocs<'a> {
    data: &'a [u8],
}

impl<'a> Elf32Relocs<'a> {
    /// The bytes of the section.
    pub closed spec fn spec_data(&self) -> Seq<u8> {
        self.data@
    }

    /// Creates a new `Elf32Relocs` instance over the bytes of a section.
    pub fn new(data: &'a [u8]) -> (r: Self)
        ensures
            r.spec_data() == data@,
    {
        Self { data }
    }

    /// Scans the records once: returns the base address and, for each type,
    /// the offsets of the relocations of that type, in input order.
    fn collect_entries(&self) -> (r: Result<(u32, Vec<Vec<u32>>), Error>)
        requires
            self.spec_data().len() / 8 <= u32::MAX,
        ensures
            match r {
                Ok((base, groups)) => offsets_valid(records(self.spec_data())) && base
                    == base_address(records(self.spec_data())) && groups@.len() == 256 && forall|
                    t: int,
                | 0 <= t < 256 ==> #[trigger] groups@[t]@ == group_offsets(
                    records(self.spec_data()),
                    t as u8,
                ),
                Err(e) => !offsets_valid(records(self.spec_data())) && e.spec_kind()
                    == ErrorKind::InvalidData,
            },
    {
        let ghost recs = records(self.data@);
        let n: usize = self.data.len() / 8;
        let mut groups: Vec<Vec<u32>> = Vec::new();
        while groups.len() < 256
            invariant
                groups@.len() <= 256,
                forall|t: int| 0 <= t < groups@.len() ==> #[trigger] groups@[t]@ == Seq::<u32>::empty(),
            decreases 256 - groups@.len(),
        {
            groups.push(Vec::new());
        }
        let mut base: u32 = u32::MAX;
        let mut pos: usize = 0;
        let mut j: usize = 0;
        assert(recs.take(0) =~= Seq::<(u32, u8)>::empty());
        while j < n
            invariant
                n == self.data@.len() / 8,
                recs == records(self.data@),
                recs.len() == n,
                j <= n,
                pos == 8 * j,
                groups@.len() == 256,
                forall|t: int|
                    0 <= t < 256 ==> #[trigger] groups@[t]@ == group_offsets(
                        recs.take(j as int),
                        t as u8,
                    ),
                j == 0 ==> base == u32::MAX,
                j > 0 ==> base == recs[0].0,
                forall|i: int| 0 <= i < j ==> #[trigger] recs[i].0 >= base,
            decreases n - j,
        {
            let rel = match Elf32Rel::from_memory(self.data, &mut pos) {
                Ok(rel) => rel,
                Err(e) => {
                    return Err(e);
                },
            };
            assert(rel.spec_view() == recs[j as int]);
            let offset = rel.offset();
            let t = rel.relocation_type();
            if j == 0 {
                base = offset;
            } else if offset < base {
                return Err(Error::new(ErrorKind::InvalidData));
            }
            proof {
                lemma_take_last(recs, j as int);
            }
            let ghost before = groups@;
            groups[t as usize].push(offset);
            proof {
                assert forall|u: int| 0 <= u < 256 implies #[trigger] groups@[u]@ == group_offsets(
                    recs.take(j + 1),
                    u as u8,
                ) by {
                    lemma_take_last(recs, j as int);
                    if u != t as int {
                        assert(groups@[u] == before[u]);
                    }
                }
            }
            j = j + 1;
        }
        assert(recs.take(n as int) =~= recs);
        Ok((base, groups))
    }

    /// Writes the header: the base address, then the number of groups.
    fn write_header(&self, output: &mut [u8], base: u32, count: u8) -> (r: Result<usize, Error>)
        ensures
            final(output)@.len() == old(output)@.len(),
            match r {
                Ok(p) => p == 5 && 5 <= old(output)@.len() && final(output)@.take(5) == le_bytes(base)
                    + seq![count] && final(output)@.skip(5) == old(output)@.skip(5),
                Err(e) => e.spec_kind() == ErrorKind::BufferSmall && old(output)@.len() < 5,
            },
    {
        if output.len() < 4 {
            return Err(Error::new(ErrorKind::BufferSmall));
        }
        write_le_u32(output, base);
        assert(output@.take(4) =~= le_bytes(base));
        assert(output@.skip(4) =~= old(output)@.skip(4));
        let ghost mid = output@;
        let p = put_byte(output, 4, count);
        proof {
            if p is Ok {
                lemma_skip_chain(old(output)@, mid, output@, 4, 5);
                assert(le_bytes(base).push(count) =~= le_bytes(base) + seq![count]);
            }
        }
        p
    }

    /// Writes the group of type `key`, whose offsets are `offs`, at `pos` and
    /// returns the position after it.
    fn write_group(&self, output: &mut [u8], pos: usize, key: u8, offs: &Vec<u32>, base: u32) -> (r:
        Result<usize, Error>)
        requires
            pos <= old(output)@.len(),
            self.spec_data().len() / 8 <= u32::MAX,
            offs@ == group_offsets(records(self.spec_data()), key),
            offs@.len() > 0,
            base == base_address(records(self.spec_data())),
        ensures
            final(output)@.len() == old(output)@.len(),
            match r {
                Ok(p) => p == pos + group_bytes(records(self.spec_data()), key).len() && p
                    <= old(output)@.len()
                    && final(output)@.take(p as int) == old(output)@.take(pos as int) + group_bytes(
                    records(self.spec_data()),
                    key,
                ) && final(output)@.skip(p as int) == old(output)@.skip(p as int),
                Err(e) => e.spec_kind() == ErrorKind::BufferSmall && pos + group_bytes(
                    records(self.spec_data()),
                    key,
                ).len() > old(output)@.len(),
            },
    {
        let ghost recs = records(self.data@);
        let ghost full = offs@;
        let ghost start = old(output)@.take(pos as int);
        proof {
            lemma_group_len(recs, key);
        }
        let count = offs.len() as u32;
        let mut p = put_byte(output, pos, key)?;
        let ghost mid = output@;
        let p1: usize = p;
        p = put_varint(output, p, count)?;
        proof {
            lemma_skip_chain(old(output)@, mid, output@, p1 as int, p as int);
        }
        let ghost lead = start + seq![key] + uleb_encode(count as nat);
        assert(output@.take(p as int) =~= lead);
        assert(full.take(0) =~= Seq::<u32>::empty());
        let mut prev: u32 = base;
        let mut k: usize = 0;
        while k < offs.len()
            invariant
                offs@ == full,
                recs == records(self.data@),
                k <= full.len(),
                p <= output@.len(),
                output@.len() == old(output)@.len(),
                output@.skip(p as int) == old(output)@.skip(p as int),
                output@.take(p as int) == lead + encode_deltas(full.take(k as int), base),
                prev == if k == 0 {
                    base
                } else {
                    full[k - 1]
                },
                lead + encode_deltas(full, base) == start + group_bytes(recs, key),
                start.len() == pos,
            decreases full.len() - k,
        {
            let o = offs[k];
            let d = delta(o, prev);
            let ghost before = full.take(k as int);
            let ghost after = full.take(k + 1);
            assert(after.drop_last() =~= before);
            assert(after.last() == o);
            assert(encode_deltas(after, base) == encode_deltas(before, base) + uleb_encode(
                d as nat,
            ));
            assert(output@.take(p as int).len() == (lead + encode_deltas(before, base)).len());
            let ghost mid = output@;
            match put_varint(output, p, d) {
                Ok(np) => {
                    proof {
                        lemma_skip_chain(old(output)@, mid, output@, p as int, np as int);
                    }
                    p = np;
                },
                Err(e) => {
                    proof {
                        assert(full.take(after.len() as int) =~= after);
                        lemma_deltas_grow(after, full, base);
                        assert((lead + encode_deltas(full, base)).len() == (start + group_bytes(
                            recs,
                            key,
                        )).len());
                    }
                    return Err(e);
                },
            }
            assert(output@.take(p as int) =~= lead + encode_deltas(after, base));
            prev = o;
            k = k + 1;
        }
        assert(full.take(full.len() as int) =~= full);
        Ok(p)
    }

    /// Writes the groups after the header, in ascending type order, and
    /// returns the position after the last one.
    fn write_groups(&self, output: &mut [u8], pos: usize, groups: &Vec<Vec<u32>>, base: u32) -> (r:
        Result<usize, Error>)
        requires
            pos == header_bytes(records(self.spec_data())).len(),
            pos <= old(output)@.len(),
            old(output)@.take(pos as int) == header_bytes(records(self.spec_data())),
            self.spec_data().len() / 8 <= u32::MAX,
            base == base_address(records(self.spec_data())),
            groups@.len() == 256,
            forall|u: int|
                0 <= u < 256 ==> #[trigger] groups@[u]@ == group_offsets(
                    records(self.spec_data()),
                    u as u8,
                ),
        ensures
            final(output)@.len() == old(output)@.len(),
            match r {
                Ok(n) => n == compressed(records(self.spec_data())).len() && n <= old(output)@.len()
                    && final(output)@.take(n as int) == compressed(records(self.spec_data()))
                    && final(output)@.skip(n as int) == old(output)@.skip(n as int),
                Err(e) => e.spec_kind() == ErrorKind::BufferSmall && compressed(
                    records(self.spec_data()),
                ).len() > old(output)@.len(),
            },
    {
        let ghost recs = records(self.data@);
        let ghost header = header_bytes(recs);
        let mut pos = pos;
        assert(groups_upto(recs, 0) =~= Seq::<u8>::empty());
        assert(output@.take(pos as int) =~= header + groups_upto(recs, 0));
        let mut t: usize = 0;
        while t < 256
            invariant
                t <= 256,
                groups@.len() == 256,
                recs == records(self.data@),
                header == header_bytes(recs),
                self.data@.len() / 8 <= u32::MAX,
                base == base_address(recs),
                forall|u: int| 0 <= u < 256 ==> #[trigger] groups@[u]@ == group_offsets(recs, u as u8),
                output@.len() == old(output)@.len(),
                pos <= output@.len(),
                output@.skip(pos as int) == old(output)@.skip(pos as int),
                output@.take(pos as int) == header + groups_upto(recs, t as nat),
                pos == header.len() + groups_upto(recs, t as nat).len(),
            decreases 256 - t,
        {
            let offs = &groups[t];
            if offs.len() > 0 {
                let ghost mid = output@;
                match self.write_group(output, pos, t as u8, offs, base) {
                    Ok(p) => {
                        proof {
                            lemma_skip_chain(old(output)@, mid, output@, pos as int, p as int);
                        }
                        pos = p;
                    },
                    Err(e) => {
                        proof {
                            lemma_group_within(recs, t as nat);
                        }
                        return Err(e);
                    },
                }
            }
            proof {
                lemma_groups_step(recs, t as nat);
                assert(output@.take(pos as int) =~= header + groups_upto(recs, (t + 1) as nat));
            }
            t = t + 1;
        }
        Ok(pos)
    }

    /// Compresses this regular ELF32 relocation section and writes the
    /// compressed data to the front of the provided in-memory buffer, leaving
    /// the rest of it as it was.
    /// Returns the number of bytes written if the compression is successful.
    ///
    /// The group count is one byte: when all 256 relocation types occur it
    /// wraps to 0, and such a section does not walk back to its relocations.
    pub fn compress(&mut self, output: &mut [u8]) -> (r: Result<usize, Error>)
        requires
            old(self).spec_data().len() / 8 <= u32::MAX,
        ensures
            final(self).spec_data() == old(self).spec_data(),
            final(output)@.len() == old(output)@.len(),
            match r {
                Ok(n) => offsets_valid(records(old(self).spec_data())) && n == compressed(
                    records(old(self).spec_data()),
                ).len() && n <= old(output)@.len() && final(output)@.take(n as int) == compressed(
                    records(old(self).spec_data()),
                ) && final(output)@.skip(n as int) == old(output)@.skip(n as int),
                Err(e) => if offsets_valid(records(old(self).spec_data())) {
                    e.spec_kind() == ErrorKind::BufferSmall && compressed(
                        records(old(self).spec_data()),
                    ).len() > old(output)@.len()
                } else {
                    e.spec_kind() == ErrorKind::InvalidData
                },
            },
    {
        let ghost recs = records(self.data@);
        let (base, groups) = self.collect_entries()?;
        let mut ntypes: u32 = 0;
        let mut t: usize = 0;
        while t < 256
            invariant
                t <= 256,
                groups@.len() == 256,
                recs == records(self.data@),
                forall|u: int| 0 <= u < 256 ==> #[trigger] groups@[u]@ == group_offsets(recs, u as u8),
                ntypes == types_upto(recs, t as nat),
                ntypes <= t,
            decreases 256 - t,
        {
            if groups[t].len() > 0 {
                ntypes = ntypes + 1;
            }
            t = t + 1;
        }
        let pos = match self.write_header(output, base, (ntypes % 256) as u8) {
            Ok(p) => p,
            Err(e) => {
                proof {
                    assert(compressed(recs).len() >= 5);
                }
                return Err(e);
            },
        };
        let ghost mid = output@;
        let r = self.write_groups(output, pos, &groups, base);
        proof {
            if let Ok(n) = r {
                lemma_skip_chain(old(output)@, mid, output@, 5, n as int);
            }
        }
        r
    }
}

} // verus!
