//! Canonical binary image of a staging table.
//!
//! Layout: a four-byte tag, the header version, the entry count, the entries
//! (path length, path bytes, object id, mode, stage), and a trailing integrity
//! checksum over everything before it. All multi-byte fields are
//! little-endian. The writer produces exactly `encoding_of` the table, and the
//! reader accepts a byte image exactly when it is such an encoding,
//! reconstructing the table it came from.

use vstd::prelude::*;
use crate::index::{StagingEntry, StagingTable, EntryV, TableV, evs};
use crate::tree::append_bytes;

verus! {

/// The four tag bytes opening every index image.
pub open spec fn magic() -> Seq<u8> {
    seq![83u8, 84u8, 66u8, 76u8]
}

/// Little-endian bytes of a 32-bit value.
pub open spec fn le32(v: u32) -> Seq<u8> {
    seq![
        (v & 0xff) as u8,
        ((v >> 8) & 0xff) as u8,
        ((v >> 16) & 0xff) as u8,
        ((v >> 24) & 0xff) as u8,
    ]
}

/// Little-endian bytes of a 64-bit value.
pub open spec fn le64(v: u64) -> Seq<u8> {
    seq![
        (v & 0xff) as u8,
        ((v >> 8) & 0xff) as u8,
        ((v >> 16) & 0xff) as u8,
        ((v >> 24) & 0xff) as u8,
        ((v >> 32) & 0xff) as u8,
        ((v >> 40) & 0xff) as u8,
        ((v >> 48) & 0xff) as u8,
        ((v >> 56) & 0xff) as u8,
    ]
}

/// The 32-bit value carried by four little-endian bytes.
pub open spec fn u32_from_le(b0: u8, b1: u8, b2: u8, b3: u8) -> u32 {
    (b0 as u32) | ((b1 as u32) << 8) | ((b2 as u32) << 16) | ((b3 as u32) << 24)
}

/// The 64-bit value carried by eight little-endian bytes.
pub open spec fn u64_from_le(
    b0: u8,
    b1: u8,
    b2: u8,
    b3: u8,
    b4: u8,
    b5: u8,
    b6: u8,
    b7: u8,
) -> u64 {
    (b0 as u64) | ((b1 as u64) << 8) | ((b2 as u64) << 16) | ((b3 as u64) << 24) | ((b4
        as u64) << 32) | ((b5 as u64) << 40) | ((b6 as u64) << 48) | ((b7 as u64) << 56)
}

pub proof fn lemma_le32_round(v: u32)
    ensures
        u32_from_le(le32(v)[0], le32(v)[1], le32(v)[2], le32(v)[3]) == v,
{
    let b0 = (v & 0xff) as u8;
    let b1 = (v >> 8 & 0xff) as u8;
    let b2 = (v >> 16 & 0xff) as u8;
    let b3 = (v >> 24 & 0xff) as u8;
    assert(((v & 0xff) as u8) as u32 | (((v >> 8 & 0xff) as u8) as u32) << 8 | (((v >> 16
        & 0xff) as u8) as u32) << 16 | (((v >> 24 & 0xff) as u8) as u32) << 24 == v)
        by (bit_vector);
    assert(b0 as u32 | (b1 as u32) << 8 | (b2 as u32) << 16 | (b3 as u32) << 24 == v);
    assert(le32(v)[0] == b0 && le32(v)[1] == b1 && le32(v)[2] == b2 && le32(v)[3] == b3);
}

pub proof fn lemma_le64_round(v: u64)
    ensures
        u64_from_le(
            le64(v)[0],
            le64(v)[1],
            le64(v)[2],
            le64(v)[3],
            le64(v)[4],
            le64(v)[5],
            le64(v)[6],
            le64(v)[7],
        ) == v,
{
    assert(((v & 0xff) as u8) as u64 | (((v >> 8 & 0xff) as u8) as u64) << 8 | (((v >> 16
        & 0xff) as u8) as u64) << 16 | (((v >> 24 & 0xff) as u8) as u64) << 24 | (((v >> 32
        & 0xff) as u8) as u64) << 32 | (((v >> 40 & 0xff) as u8) as u64) << 40 | (((v >> 48
        & 0xff) as u8) as u64) << 48 | (((v >> 56 & 0xff) as u8) as u64) << 56 == v)
        by (bit_vector);
}

pub proof fn lemma_le32_bytes(b0: u8, b1: u8, b2: u8, b3: u8)
    ensures
        le32(u32_from_le(b0, b1, b2, b3)) == seq![b0, b1, b2, b3],
{
    let v = u32_from_le(b0, b1, b2, b3);
    assert({
        let w = b0 as u32 | (b1 as u32) << 8 | (b2 as u32) << 16 | (b3 as u32) << 24;
        (w & 0xff) as u8 == b0 && (w >> 8 & 0xff) as u8 == b1 && (w >> 16 & 0xff) as u8 == b2
            && (w >> 24 & 0xff) as u8 == b3
    }) by (bit_vector);
    assert(le32(v) =~= seq![b0, b1, b2, b3]);
}

pub proof fn lemma_le64_bytes(b0: u8, b1: u8, b2: u8, b3: u8, b4: u8, b5: u8, b6: u8, b7: u8)
    ensures
        le64(u64_from_le(b0, b1, b2, b3, b4, b5, b6, b7)) == seq![b0, b1, b2, b3, b4, b5, b6, b7],
{
    let v = u64_from_le(b0, b1, b2, b3, b4, b5, b6, b7);
    assert({
        let w = b0 as u64 | (b1 as u64) << 8 | (b2 as u64) << 16 | (b3 as u64) << 24 | (b4
            as u64) << 32 | (b5 as u64) << 40 | (b6 as u64) << 48 | (b7 as u64) << 56;
        (w & 0xff) as u8 == b0 && (w >> 8 & 0xff) as u8 == b1 && (w >> 16 & 0xff) as u8 == b2
            && (w >> 24 & 0xff) as u8 == b3 && (w >> 32 & 0xff) as u8 == b4 && (w >> 40
            & 0xff) as u8 == b5 && (w >> 48 & 0xff) as u8 == b6 && (w >> 56 & 0xff) as u8 == b7
    }) by (bit_vector);
    assert(le64(v) =~= seq![b0, b1, b2, b3, b4, b5, b6, b7]);
}

/// One step of the checksum fold: add a byte, wrapping at 64 bits.
pub open spec fn wrap_add(a: u64, b: u8) -> u64 {
    if a + b > u64::MAX {
        (a + b - 0x1_0000_0000_0000_0000) as u64
    } else {
        (a + b) as u64
    }
}

/// Fold the bytes from position `i` on into the accumulator.
pub open spec fn sum_from(s: Seq<u8>, i: int, acc: u64) -> u64
    decreases s.len() - i,
        when 0 <= i <= s.len()
{
    if i >= s.len() {
        acc
    } else {
        sum_from(s, i + 1, wrap_add(acc, s[i]))
    }
}

/// The trailing integrity checksum of a byte image.
pub open spec fn checksum(s: Seq<u8>) -> u64 {
    sum_from(s, 0, 0)
}

/// The bytes of one staging entry.
pub open spec fn enc_entry(e: EntryV) -> Seq<u8> {
    le32(e.path.len() as u32) + e.path + le64(e.id) + le32(e.mode) + seq![e.stage]
}

/// The bytes of the entries from position `k` on.
pub open spec fn enc_entries(es: Seq<EntryV>, k: int) -> Seq<u8>
    decreases es.len() - k,
        when 0 <= k <= es.len()
{
    if k >= es.len() {
        Seq::empty()
    } else {
        enc_entry(es[k]) + enc_entries(es, k + 1)
    }
}

/// Everything before the trailing checksum.
pub open spec fn enc_body(t: TableV) -> Seq<u8> {
    magic() + le32(t.version) + le32(t.entries.len() as u32) + enc_entries(t.entries, 0)
}

/// The full canonical byte image of a staging table.
pub open spec fn encoding_of(t: TableV) -> Seq<u8> {
    enc_body(t) + le64(checksum(enc_body(t)))
}

/// The format's size limits: counts and path lengths carried in 32 bits.
pub open spec fn encodable(t: TableV) -> bool {
    &&& t.entries.len() <= u32::MAX
    &&& forall|i: int| 0 <= i < t.entries.len() ==> (#[trigger] t.entries[i]).path.len()
        <= u32::MAX
}

/// Splitting the entry bytes after the first `k` entries.
pub proof fn lemma_enc_split(es: Seq<EntryV>, k: int)
    requires
        0 <= k <= es.len(),
    ensures
        enc_entries(es, 0) == enc_entries(es.take(k), 0) + enc_entries(es, k),
    decreases k,
{
    if k == 0 {
        assert(es.take(0) =~= Seq::<EntryV>::empty());
        assert(enc_entries(es.take(0), 0) =~= Seq::<u8>::empty());
        assert(enc_entries(es.take(0), 0) + enc_entries(es, 0) =~= enc_entries(es, 0));
    } else {
        lemma_enc_split(es, k - 1);
        lemma_enc_shift(es, k - 1);
        let a = es.take(k - 1);
        let b = es.take(k);
        assert(b =~= a.push(es[k - 1]));
        lemma_enc_push(a, es[k - 1]);
        assert(enc_entries(es, k - 1) == enc_entry(es[k - 1]) + enc_entries(es, k));
        assert(enc_entries(b, 0) + enc_entries(es, k) =~= (enc_entries(a, 0) + enc_entry(
            es[k - 1],
        )) + enc_entries(es, k));
        assert((enc_entries(a, 0) + enc_entry(es[k - 1])) + enc_entries(es, k) =~= enc_entries(
            a,
            0,
        ) + (enc_entry(es[k - 1]) + enc_entries(es, k)));
    }
}

/// One unfolding of `enc_entries` at position `k`.
pub proof fn lemma_enc_shift(es: Seq<EntryV>, k: int)
    requires
        0 <= k < es.len(),
    ensures
        enc_entries(es, k) == enc_entry(es[k]) + enc_entries(es, k + 1),
{
}

/// Appending one entry appends its bytes.
pub proof fn lemma_enc_push(es: Seq<EntryV>, e: EntryV)
    ensures
        enc_entries(es.push(e), 0) == enc_entries(es, 0) + enc_entry(e),
    decreases es.len(),
{
    let es2 = es.push(e);
    if es.len() == 0 {
        assert(es2[0] == e);
        assert(es2.len() == 1);
        assert(enc_entries(es2, 1) =~= Seq::<u8>::empty());
        assert(enc_entries(es2, 0) == enc_entry(e) + Seq::<u8>::empty());
        assert(enc_entry(e) + Seq::<u8>::empty() =~= enc_entry(e));
        assert(enc_entries(es, 0) =~= Seq::<u8>::empty());
        assert(Seq::<u8>::empty() + enc_entry(e) =~= enc_entry(e));
    } else {
        let tail = es.skip(1);
        lemma_enc_push(tail, e);
        assert(es2.skip(1) =~= tail.push(e));
        lemma_enc_skip(es);
        lemma_enc_skip(es2);
        assert(es2[0] == es[0]);
        assert(enc_entries(es2, 0) == enc_entry(es[0]) + enc_entries(tail.push(e), 0));
        assert(enc_entries(es2, 0) == enc_entry(es[0]) + (enc_entries(tail, 0) + enc_entry(e)));
        assert(enc_entry(es[0]) + (enc_entries(tail, 0) + enc_entry(e)) =~= (enc_entry(es[0])
            + enc_entries(tail, 0)) + enc_entry(e));
    }
}

/// The bytes from position 1 of `es` are the bytes of its tail.
proof fn lemma_enc_skip(es: Seq<EntryV>)
    requires
        es.len() >= 1,
    ensures
        enc_entries(es, 1) == enc_entries(es.skip(1), 0),
    decreases es.len(),
{
    lemma_enc_skip_from(es, 1);
}

/// The bytes from position `k` of `es` equal the bytes of the suffix.
proof fn lemma_enc_skip_from(es: Seq<EntryV>, k: int)
    requires
        0 <= k <= es.len(),
    ensures
        enc_entries(es, k) == enc_entries(es.skip(k), 0),
    decreases es.len() - k,
{
    if k >= es.len() {
        assert(es.skip(k).len() == 0);
        assert(enc_entries(es.skip(k), 0) =~= Seq::<u8>::empty());
    } else {
        lemma_enc_skip_from(es, k + 1);
        let s = es.skip(k);
        assert(s[0] == es[k]);
        assert(s.skip(1) =~= es.skip(k + 1));
        lemma_enc_skip_from(s, 1);
        assert(enc_entries(s, 1) == enc_entries(es.skip(k + 1), 0));
        assert(enc_entries(s, 0) == enc_entry(es[k]) + enc_entries(s, 1));
    }
}


/// Facts a canonical image gives about its header and framing.
proof fn lemma_header_facts(b: Seq<u8>, t0: TableV)
    requires
        encodable(t0),
        b == encoding_of(t0),
    ensures
        b.len() == 20 + enc_entries(t0.entries, 0).len(),
        b[0] == 83 && b[1] == 84 && b[2] == 66 && b[3] == 76,
        b.subrange(4, 8) == le32(t0.version),
        b.subrange(8, 12) == le32(t0.entries.len() as u32),
        b.subrange(12, b.len() - 8) == enc_entries(t0.entries, 0),
        b.subrange(0, b.len() - 8) == enc_body(t0),
        b.subrange(b.len() - 8, b.len() as int) == le64(checksum(enc_body(t0))),
{
    let body = enc_body(t0);
    let tailb = le64(checksum(body));
    assert(b.len() == body.len() + 8);
    assert(body.len() == 12 + enc_entries(t0.entries, 0).len());
    assert(b.subrange(0, b.len() - 8) =~= body);
    assert(b.subrange(b.len() - 8, b.len() as int) =~= tailb);
    assert(b.subrange(4, 8) =~= le32(t0.version));
    assert(b.subrange(8, 12) =~= le32(t0.entries.len() as u32));
    assert(b.subrange(12, b.len() - 8) =~= enc_entries(t0.entries, 0));
    assert(b[0] == magic()[0] && b[1] == magic()[1] && b[2] == magic()[2] && b[3] == magic()[3]);
}

/// Facts a canonical image gives about the bytes of entry `k`.
proof fn lemma_entry_facts(b: Seq<u8>, t0: TableV, k: int, pos: int)
    requires
        encodable(t0),
        b == encoding_of(t0),
        0 <= k < t0.entries.len(),
        pos == 12 + enc_entries(t0.entries.take(k), 0).len(),
    ensures
        b.len() - 8 - pos == enc_entries(t0.entries, k).len(),
        enc_entries(t0.entries, k).len() == 17 + t0.entries[k].path.len() + enc_entries(
            t0.entries,
            k + 1,
        ).len(),
        b.subrange(pos, pos + 4) == le32(t0.entries[k].path.len() as u32),
        b.subrange(pos + 4, pos + 4 + t0.entries[k].path.len()) == t0.entries[k].path,
        b.subrange(
            pos + 4 + t0.entries[k].path.len(),
            pos + 12 + t0.entries[k].path.len(),
        ) == le64(t0.entries[k].id),
        b.subrange(
            pos + 12 + t0.entries[k].path.len(),
            pos + 16 + t0.entries[k].path.len(),
        ) == le32(t0.entries[k].mode),
        b[pos + 16 + t0.entries[k].path.len()] == t0.entries[k].stage,
{
    let es = t0.entries;
    let e = es[k];
    let plen = e.path.len() as int;
    lemma_header_facts(b, t0);
    lemma_enc_split(es, k);
    lemma_enc_shift(es, k);
    let pre = enc_entries(es.take(k), 0);
    let suf = enc_entries(es, k);
    assert(b.subrange(12, b.len() - 8) == pre + suf);
    assert(b.len() - 8 - pos == suf.len()) by {
        assert((pre + suf).len() == pre.len() + suf.len());
    }
    assert(enc_entry(e).len() == 17 + plen);
    assert forall|i: int| 0 <= i < suf.len() implies b[pos + i] == suf[i] by {
        assert(b.subrange(12, b.len() - 8)[pre.len() + i] == suf[i]);
        assert(b.subrange(12, b.len() - 8)[pre.len() + i] == b[12 + pre.len() + i]);
    }
    assert(suf == enc_entry(e) + enc_entries(es, k + 1));
    assert forall|i: int| 0 <= i < 17 + plen implies suf[i] == enc_entry(e)[i] by {}
    assert(b.subrange(pos, pos + 4) =~= le32(e.path.len() as u32)) by {
        assert(forall|i: int| 0 <= i < 4 ==> enc_entry(e)[i] == le32(e.path.len() as u32)[i]);
    }
    assert(b.subrange(pos + 4, pos + 4 + plen) =~= e.path) by {
        assert(forall|i: int| 0 <= i < plen ==> enc_entry(e)[4 + i] == e.path[i]);
    }
    assert(b.subrange(pos + 4 + plen, pos + 12 + plen) =~= le64(e.id)) by {
        assert(forall|i: int| 0 <= i < 8 ==> enc_entry(e)[4 + plen + i] == le64(e.id)[i]);
    }
    assert(b.subrange(pos + 12 + plen, pos + 16 + plen) =~= le32(e.mode)) by {
        assert(forall|i: int| 0 <= i < 4 ==> enc_entry(e)[12 + plen + i] == le32(e.mode)[i]);
    }
    assert(enc_entry(e)[16 + plen] == e.stage);
}

/// Append the little-endian bytes of a 32-bit value.
fn push_le32(out: &mut Vec<u8>, v: u32)
    ensures
        final(out)@ == old(out)@ + le32(v),
{
    out.push((v & 0xff) as u8);
    out.push((v >> 8 & 0xff) as u8);
    out.push((v >> 16 & 0xff) as u8);
    out.push((v >> 24 & 0xff) as u8);
    proof {
        assert(out@ =~= old(out)@ + le32(v));
    }
}

/// Append the little-endian bytes of a 64-bit value.
fn push_le64(out: &mut Vec<u8>, v: u64)
    ensures
        final(out)@ == old(out)@ + le64(v),
{
    out.push((v & 0xff) as u8);
    out.push((v >> 8 & 0xff) as u8);
    out.push((v >> 16 & 0xff) as u8);
    out.push((v >> 24 & 0xff) as u8);
    out.push((v >> 32 & 0xff) as u8);
    out.push((v >> 40 & 0xff) as u8);
    out.push((v >> 48 & 0xff) as u8);
    out.push((v >> 56 & 0xff) as u8);
    proof {
        assert(out@ =~= old(out)@ + le64(v));
    }
}

/// Read a 32-bit little-endian value.
fn read_u32(b: &Vec<u8>, pos: usize) -> (r: u32)
    requires
        pos + 4 <= b@.len(),
    ensures
        r == u32_from_le(b@[pos as int], b@[pos as int + 1], b@[pos as int + 2], b@[pos as int + 3]),
{
    let n: usize = b.len();
    assert(pos + 4 <= n);
    b[pos] as u32 | (b[pos + 1] as u32) << 8 | (b[pos + 2] as u32) << 16 | (b[pos + 3] as u32) << 24
}

/// Read a 64-bit little-endian value.
fn read_u64(b: &Vec<u8>, pos: usize) -> (r: u64)
    requires
        pos + 8 <= b@.len(),
    ensures
        r == u64_from_le(
            b@[pos as int],
            b@[pos as int + 1],
            b@[pos as int + 2],
            b@[pos as int + 3],
            b@[pos as int + 4],
            b@[pos as int + 5],
            b@[pos as int + 6],
            b@[pos as int + 7],
        ),
{
    let n: usize = b.len();
    assert(pos + 8 <= n);
    b[pos] as u64 | (b[pos + 1] as u64) << 8 | (b[pos + 2] as u64) << 16 | (b[pos + 3] as u64) << 24
        | (b[pos + 4] as u64) << 32 | (b[pos + 5] as u64) << 40 | (b[pos + 6] as u64) << 48 | (b[pos
        + 7] as u64) << 56
}

/// Copy the bytes of `b` between `start` and `end`.
pub fn copy_bytes_range(b: &Vec<u8>, start: usize, end: usize) -> (r: Vec<u8>)
    requires
        start <= end <= b@.len(),
    ensures
        r@ == b@.subrange(start as int, end as int),
{
    let mut r: Vec<u8> = Vec::new();
    let mut i: usize = start;
    while i < end
        invariant
            start <= i <= end <= b@.len(),
            r@ == b@.subrange(start as int, i as int),
        decreases end - i,
    {
        r.push(b[i]);
        proof {
            assert(r@ =~= b@.subrange(start as int, i as int + 1));
        }
        i += 1;
    }
    r
}

/// Fold the checksum over the first `end` bytes.
fn compute_checksum(b: &Vec<u8>, end: usize) -> (r: u64)
    requires
        end <= b@.len(),
    ensures
        r == checksum(b@.subrange(0, end as int)),
{
    let ghost s = b@.subrange(0, end as int);
    let mut acc: u64 = 0;
    let mut i: usize = 0;
    while i < end
        invariant
            i <= end <= b@.len(),
            s == b@.subrange(0, end as int),
            checksum(s) == sum_from(s, i as int, acc),
        decreases end - i,
    {
        let bb = b[i] as u64;
        proof {
            assert(s[i as int] == b@[i as int]);
        }
        let acc2: u64 = if bb <= u64::MAX - acc {
            acc + bb
        } else {
            (acc - (u64::MAX - bb)) - 1
        };
        proof {
            assert(acc2 == wrap_add(acc, s[i as int]));
        }
        acc = acc2;
        i += 1;
    }
    acc
}

/// The table cannot be carried by the format: a count or a path length
/// overflows the 32-bit fields.
#[derive(Debug)]
pub enum EncodeError {
    TooLarge,
}

/// Serialize a staging table to its canonical byte image.
///
/// Succeeds exactly on encodable tables, and the produced bytes are exactly
/// `encoding_of` the table's value, so re-reading them yields an equal table.
pub fn serialize_index(t: &StagingTable) -> (r: Result<Vec<u8>, EncodeError>)
    ensures
        match r {
            Result::Ok(b) => encodable(t@) && b@ == encoding_of(t@),
            Result::Err(_) => !encodable(t@),
        },
{
    let n: usize = t.entries.len();
    if n > u32::MAX as usize {
        return Result::Err(EncodeError::TooLarge);
    }
    let mut i: usize = 0;
    while i < n
        invariant
            n == t.entries@.len(),
            n <= u32::MAX,
            i <= n,
            forall|j: int| 0 <= j < i ==> (#[trigger] t@.entries[j]).path.len() <= u32::MAX,
        decreases n - i,
    {
        if t.entries[i].path.len() > u32::MAX as usize {
            assert(t@.entries[i as int].path.len() > u32::MAX);
            return Result::Err(EncodeError::TooLarge);
        }
        assert(t@.entries[i as int].path.len() <= u32::MAX);
        i += 1;
    }
    assert(encodable(t@));
    let ghost es = t@.entries;
    let mut out: Vec<u8> = Vec::new();
    out.push(83);
    out.push(84);
    out.push(66);
    out.push(76);
    proof {
        assert(out@ =~= magic());
    }
    push_le32(&mut out, t.version);
    push_le32(&mut out, n as u32);
    proof {
        assert(n as u32 == es.len() as u32);
        assert(out@ + enc_entries(es, 0) =~= enc_body(t@));
    }
    let mut k: usize = 0;
    while k < n
        invariant
            n == t.entries@.len(),
            encodable(t@),
            es == t@.entries,
            k <= n,
            out@ + enc_entries(es, k as int) == enc_body(t@),
        decreases n - k,
    {
        let ghost out0 = out@;
        let plen: usize = t.entries[k].path.len();
        push_le32(&mut out, plen as u32);
        append_bytes(&mut out, &t.entries[k].path);
        push_le64(&mut out, t.entries[k].id);
        push_le32(&mut out, t.entries[k].mode);
        out.push(t.entries[k].stage);
        proof {
            let e = es[k as int];
            assert(e.path.len() <= u32::MAX);
            assert(e.path.len() as u32 == plen as u32);
            assert(e.path == t.entries@[k as int].path@);
            assert(out@ =~= out0 + enc_entry(e));
            lemma_enc_shift(es, k as int);
            assert(out@ + enc_entries(es, k as int + 1) =~= out0 + enc_entries(es, k as int));
        }
        k += 1;
    }
    proof {
        assert(enc_entries(es, n as int) =~= Seq::<u8>::empty());
        assert(out@ + Seq::<u8>::empty() =~= out@);
        assert(out@ == enc_body(t@));
    }
    let end: usize = out.len();
    let cs = compute_checksum(&out, end);
    proof {
        assert(out@.subrange(0, end as int) =~= out@);
    }
    push_le64(&mut out, cs);
    Result::Ok(out)
}

/// Read a staging table back from a byte image.
///
/// Returns a table exactly when the bytes are the canonical image of one, and
/// in that case returns the one table they encode: parsing inverts
/// serialization.
#[verifier::loop_isolation(false)]
#[verifier::rlimit(100)]
#[verifier::spinoff_prover]
pub fn parse_index(b: &Vec<u8>) -> (r: Option<StagingTable>)
    ensures
        (r matches Option::Some(t) ==> encodable(t@) && b@ == encoding_of(t@)),
        forall|t0: TableV|
            encodable(t0) && b@ == #[trigger] encoding_of(t0) ==> r is Some && r->Some_0@ == t0,
{
    proof {
        assert forall|t0: TableV| encodable(t0) && b@ == encoding_of(t0) implies b@.len() >= 20
            && b@[0] == 83 && b@[1] == 84 && b@[2] == 66 && b@[3] == 76 by {
            lemma_header_facts(b@, t0);
        }
    }
    if b.len() < 20 {
        return Option::None;
    }
    if b[0] != 83 || b[1] != 84 || b[2] != 66 || b[3] != 76 {
        return Option::None;
    }
    let ver = read_u32(b, 4);
    let cnt = read_u32(b, 8);
    proof {
        lemma_le32_bytes(b@[4], b@[5], b@[6], b@[7]);
        lemma_le32_bytes(b@[8], b@[9], b@[10], b@[11]);
        assert forall|t0: TableV| encodable(t0) && b@ == encoding_of(t0) implies ver
            == t0.version && cnt == t0.entries.len() as u32 by {
            lemma_header_facts(b@, t0);
            assert(b@[4] == le32(t0.version)[0]);
            assert(b@[5] == le32(t0.version)[1]);
            assert(b@[6] == le32(t0.version)[2]);
            assert(b@[7] == le32(t0.version)[3]);
            lemma_le32_round(t0.version);
            assert(b@[8] == le32(t0.entries.len() as u32)[0]);
            assert(b@[9] == le32(t0.entries.len() as u32)[1]);
            assert(b@[10] == le32(t0.entries.len() as u32)[2]);
            assert(b@[11] == le32(t0.entries.len() as u32)[3]);
            lemma_le32_round(t0.entries.len() as u32);
        }
    }
    let mut out: Vec<StagingEntry> = Vec::new();
    let mut pos: usize = 12;
    let mut k: u32 = 0;
    proof {
        assert(b@.subrange(12, 12) =~= Seq::<u8>::empty());
        assert(enc_entries(evs(out@), 0) =~= Seq::<u8>::empty());
    }
    while k < cnt
        invariant
            k <= cnt,
            out@.len() == k as int,
            12 <= pos <= b@.len() - 8,
            b@.subrange(12, pos as int) == enc_entries(evs(out@), 0),
            forall|i: int| 0 <= i < out@.len() ==> (#[trigger] evs(out@)[i]).path.len()
                <= u32::MAX,
            forall|t0: TableV|
                encodable(t0) && b@ == #[trigger] encoding_of(t0) ==> evs(out@)
                    == t0.entries.take(k as int),
        decreases cnt - k,
    {
        proof {
            assert forall|t0: TableV| encodable(t0) && b@ == encoding_of(t0) implies pos as int
                == 12 + enc_entries(t0.entries.take(k as int), 0).len() && k < t0.entries.len() by {
                assert(evs(out@) == t0.entries.take(k as int));
                assert(b@.subrange(12, pos as int).len() == pos - 12);
            }
            assert forall|t0: TableV| encodable(t0) && b@ == encoding_of(t0) implies (b@.len() - 8
                - pos) >= 17 + t0.entries[k as int].path.len() by {
                lemma_entry_facts(b@, t0, k as int, pos as int);
            }
        }
        let rem: usize = (b.len() - 8) - pos;
        if rem < 17 {
            return Option::None;
        }
        let plen32 = read_u32(b, pos);
        let plen: usize = plen32 as usize;
        proof {
            assert forall|t0: TableV| encodable(t0) && b@ == encoding_of(t0) implies plen as int
                == t0.entries[k as int].path.len() by {
                lemma_entry_facts(b@, t0, k as int, pos as int);
                let pl = t0.entries[k as int].path.len() as u32;
                assert(b@[pos as int] == le32(pl)[0]);
                assert(b@[pos as int + 1] == le32(pl)[1]);
                assert(b@[pos as int + 2] == le32(pl)[2]);
                assert(b@[pos as int + 3] == le32(pl)[3]);
                lemma_le32_round(pl);
            }
        }
        if plen > rem - 17 {
            return Option::None;
        }
        let path = copy_bytes_range(b, pos + 4, pos + 4 + plen);
        let id = read_u64(b, pos + 4 + plen);
        let mode = read_u32(b, pos + 12 + plen);
        let stage = b[pos + 16 + plen];
        let entry = StagingEntry { path, id, mode, stage };
        let ghost entry_v = entry@;
        let ghost p = pos as int;
        proof {
            lemma_le32_bytes(b@[p], b@[p + 1], b@[p + 2], b@[p + 3]);
            lemma_le64_bytes(
                b@[p + 4 + plen],
                b@[p + 5 + plen],
                b@[p + 6 + plen],
                b@[p + 7 + plen],
                b@[p + 8 + plen],
                b@[p + 9 + plen],
                b@[p + 10 + plen],
                b@[p + 11 + plen],
            );
            lemma_le32_bytes(b@[p + 12 + plen], b@[p + 13 + plen], b@[p + 14 + plen], b@[p + 15 + plen]);
            assert(entry_v.path.len() == plen);
            assert(entry_v.path.len() as u32 == plen32);
            assert(le32(plen32) == seq![b@[p], b@[p + 1], b@[p + 2], b@[p + 3]]);
            assert(b@.subrange(p, p + 17 + plen) =~= enc_entry(entry_v)) by {
                assert(le64(id) == seq![
                    b@[p + 4 + plen],
                    b@[p + 5 + plen],
                    b@[p + 6 + plen],
                    b@[p + 7 + plen],
                    b@[p + 8 + plen],
                    b@[p + 9 + plen],
                    b@[p + 10 + plen],
                    b@[p + 11 + plen],
                ]);
                assert(le32(mode) == seq![
                    b@[p + 12 + plen],
                    b@[p + 13 + plen],
                    b@[p + 14 + plen],
                    b@[p + 15 + plen],
                ]);
                assert(forall|i: int| 0 <= i < plen ==> entry_v.path[i] == b@[p + 4 + i]);
            }
            lemma_enc_push(evs(out@), entry_v);
            assert(evs(out@.push(entry)) =~= evs(out@).push(entry_v));
            assert(b@.subrange(12, p + 17 + plen) =~= b@.subrange(12, p) + b@.subrange(
                p,
                p + 17 + plen,
            ));
            assert forall|t0: TableV| encodable(t0) && b@ == encoding_of(t0) implies evs(
                out@.push(entry),
            ) == t0.entries.take(k as int + 1) by {
                lemma_entry_facts(b@, t0, k as int, pos as int);
                let e0 = t0.entries[k as int];
                assert(entry_v.path =~= e0.path) by {
                    assert(b@.subrange(p + 4, p + 4 + plen) == e0.path);
                }
                assert(u64_from_le(
                    le64(e0.id)[0],
                    le64(e0.id)[1],
                    le64(e0.id)[2],
                    le64(e0.id)[3],
                    le64(e0.id)[4],
                    le64(e0.id)[5],
                    le64(e0.id)[6],
                    le64(e0.id)[7],
                ) == e0.id) by {
                    lemma_le64_round(e0.id);
                }
                assert(entry_v.id == e0.id) by {
                    assert(b@.subrange(p + 4 + plen, p + 12 + plen) == le64(e0.id));
                    assert(b@[p + 4 + plen] == le64(e0.id)[0]);
                    assert(b@[p + 5 + plen] == le64(e0.id)[1]);
                    assert(b@[p + 6 + plen] == le64(e0.id)[2]);
                    assert(b@[p + 7 + plen] == le64(e0.id)[3]);
                    assert(b@[p + 8 + plen] == le64(e0.id)[4]);
                    assert(b@[p + 9 + plen] == le64(e0.id)[5]);
                    assert(b@[p + 10 + plen] == le64(e0.id)[6]);
                    assert(b@[p + 11 + plen] == le64(e0.id)[7]);
                }
                assert(entry_v.mode == e0.mode) by {
                    assert(b@.subrange(p + 12 + plen, p + 16 + plen) == le32(e0.mode));
                    assert(b@[p + 12 + plen] == le32(e0.mode)[0]);
                    assert(b@[p + 13 + plen] == le32(e0.mode)[1]);
                    assert(b@[p + 14 + plen] == le32(e0.mode)[2]);
                    assert(b@[p + 15 + plen] == le32(e0.mode)[3]);
                    lemma_le32_round(e0.mode);
                }
                assert(entry_v.stage == e0.stage) by {
                    assert(b@[p + 16 + plen] == e0.stage);
                }
                assert(entry_v == e0);
                assert(t0.entries.take(k as int + 1) =~= t0.entries.take(k as int).push(e0));
            }
        }
        out.push(entry);
        pos = pos + 17 + plen;
        k = k + 1;
    }
    proof {
        assert forall|t0: TableV| encodable(t0) && b@ == encoding_of(t0) implies pos as int
            == b@.len() - 8 by {
            assert(evs(out@) == t0.entries.take(cnt as int));
            assert(t0.entries.take(cnt as int) =~= t0.entries);
            lemma_header_facts(b@, t0);
            assert(b@.subrange(12, pos as int).len() == pos - 12);
            assert(enc_entries(evs(out@), 0) == enc_entries(t0.entries, 0));
        }
    }
    if pos != b.len() - 8 {
        return Option::None;
    }
    let cs = compute_checksum(b, pos);
    let stored = read_u64(b, pos);
    let ghost p = pos as int;
    proof {
        lemma_le32_bytes(b@[4], b@[5], b@[6], b@[7]);
        lemma_le32_bytes(b@[8], b@[9], b@[10], b@[11]);
        assert forall|t0: TableV| encodable(t0) && b@ == encoding_of(t0) implies cs == stored by {
            lemma_header_facts(b@, t0);
            assert(b@.subrange(0, p) == enc_body(t0));
            assert(b@.subrange(p, b@.len() as int) == le64(checksum(enc_body(t0))));
            assert(b@[p] == le64(checksum(enc_body(t0)))[0]);
            assert(b@[p + 1] == le64(checksum(enc_body(t0)))[1]);
            assert(b@[p + 2] == le64(checksum(enc_body(t0)))[2]);
            assert(b@[p + 3] == le64(checksum(enc_body(t0)))[3]);
            assert(b@[p + 4] == le64(checksum(enc_body(t0)))[4]);
            assert(b@[p + 5] == le64(checksum(enc_body(t0)))[5]);
            assert(b@[p + 6] == le64(checksum(enc_body(t0)))[6]);
            assert(b@[p + 7] == le64(checksum(enc_body(t0)))[7]);
            lemma_le64_round(checksum(enc_body(t0)));
        }
    }
    if cs != stored {
        return Option::None;
    }
    let t = StagingTable { version: ver, entries: out };
    proof {
        let tv = t@;
        assert(tv.entries == evs(t.entries@));
        assert(tv.entries.len() == t.entries@.len());
        assert(tv.entries.len() == cnt as int);
        assert(encodable(tv));
        assert(tv.entries.len() as u32 == cnt);
        assert(b@.subrange(0, 12) =~= magic() + le32(ver) + le32(cnt)) by {
            assert(le32(ver) == seq![b@[4], b@[5], b@[6], b@[7]]);
            assert(le32(cnt) == seq![b@[8], b@[9], b@[10], b@[11]]);
        }
        assert(b@.subrange(0, p) =~= b@.subrange(0, 12) + b@.subrange(12, p));
        assert(b@.subrange(0, p) =~= enc_body(tv));
        assert(cs == checksum(b@.subrange(0, p)));
        lemma_le64_bytes(
            b@[p],
            b@[p + 1],
            b@[p + 2],
            b@[p + 3],
            b@[p + 4],
            b@[p + 5],
            b@[p + 6],
            b@[p + 7],
        );
        assert(b@.subrange(p, b@.len() as int) =~= le64(stored));
        assert(b@ =~= b@.subrange(0, p) + b@.subrange(p, b@.len() as int));
        assert(b@ == encoding_of(tv));
        assert forall|t0: TableV| encodable(t0) && b@ == encoding_of(t0) implies tv == t0 by {
            assert(evs(out@) == t0.entries.take(cnt as int));
            assert(t0.entries.take(cnt as int) =~= t0.entries);
            assert(ver == t0.version);
        }
    }
    Option::Some(t)
}


} // verus!
