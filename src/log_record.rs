use vstd::prelude::*;
use crate::errors::Errors;

verus! {

/// Kind of a record: a normal write or a tombstone, or, inside a write
/// batch, a staged write, a staged tombstone, or the markers that open and
/// close the batch.
#[derive(Debug, Clone, Copy, PartialEq, Eq, Structural)]
#[allow(non_camel_case_types)]
pub enum LogRecordType {
    NOMAL,
    DELETED,
    BATCH_NORMAL,
    BATCH_DELETED,
    BATCH_BEGIN,
    BATCH_FINISHED,
}

/// The byte that stands for a record kind on disk.
pub open spec fn type_byte(t: LogRecordType) -> u8 {
    match t {
        LogRecordType::NOMAL => 1,
        LogRecordType::DELETED => 2,
        LogRecordType::BATCH_NORMAL => 3,
        LogRecordType::BATCH_DELETED => 4,
        LogRecordType::BATCH_BEGIN => 5,
        LogRecordType::BATCH_FINISHED => 6,
    }
}

/// The record kind that an on-disk byte from 1 to 6 stands for.
pub open spec fn type_of(b: u8) -> LogRecordType {
    if b == 1 {
        LogRecordType::NOMAL
    } else if b == 2 {
        LogRecordType::DELETED
    } else if b == 3 {
        LogRecordType::BATCH_NORMAL
    } else if b == 4 {
        LogRecordType::BATCH_DELETED
    } else if b == 5 {
        LogRecordType::BATCH_BEGIN
    } else {
        LogRecordType::BATCH_FINISHED
    }
}

/// Whether a record kind stores a value under its key.
pub open spec fn is_put(t: LogRecordType) -> bool {
    t == LogRecordType::NOMAL || t == LogRecordType::BATCH_NORMAL
}

impl LogRecordType {
    /// Reads a record kind from its on-disk byte.
    pub fn from_u8(v: u8) -> (r: LogRecordType)
        requires
            1 <= v <= 6,
        ensures
            type_byte(r) == v,
            r == type_of(v),
    {
        if v == 1 {
            LogRecordType::NOMAL
        } else if v == 2 {
            LogRecordType::DELETED
        } else if v == 3 {
            LogRecordType::BATCH_NORMAL
        } else if v == 4 {
            LogRecordType::BATCH_DELETED
        } else if v == 5 {
            LogRecordType::BATCH_BEGIN
        } else {
            LogRecordType::BATCH_FINISHED
        }
    }

    /// The on-disk byte of this record kind.
    pub fn to_u8(&self) -> (r: u8)
        ensures
            r == type_byte(*self),
    {
        match self {
            LogRecordType::NOMAL => 1,
            LogRecordType::DELETED => 2,
            LogRecordType::BATCH_NORMAL => 3,
            LogRecordType::BATCH_DELETED => 4,
            LogRecordType::BATCH_BEGIN => 5,
            LogRecordType::BATCH_FINISHED => 6,
        }
    }
}

/// One versioned write as it is appended to a data file.
pub struct LogRecord {
    pub key: Vec<u8>,
    pub value: Vec<u8>,
    pub rec_type: LogRecordType,
}

/// Where a record lives: a data file id and a byte offset in it.
#[derive(Debug, Clone, Copy, PartialEq, Eq, Structural)]
pub struct LogRecordPos {
    pub file_id: u32,
    pub offset: u64,
}

/// A decoded record and the number of bytes it occupied.
pub struct ReadLogRecord {
    pub record: LogRecord,
    pub size: usize,
}

/// LEB128 form of an unsigned integer: seven bits per byte, low group first,
/// the high bit set on every byte but the last.
pub open spec fn varint(v: nat) -> Seq<u8>
    decreases v,
{
    if v < 128 {
        seq![v as u8]
    } else {
        seq![(v % 128 + 128) as u8] + varint(v / 128)
    }
}

/// Largest value (exclusive) that `n` varint bytes can carry.
pub open spec fn varint_cap(n: nat) -> nat
    decreases n,
{
    if n == 0 {
        1
    } else {
        128 * varint_cap((n - 1) as nat)
    }
}

/// Reading a varint at `i` with at most `fuel` bytes: the value and the index
/// just past it, `ReadDataFileEOF` when the bytes run out, and
/// `InvalidLogRecordCrc` when it is longer than `fuel`.
pub open spec fn read_varint_spec(s: Seq<u8>, i: int, fuel: nat) -> Result<(nat, int), Errors>
    decreases fuel,
{
    if fuel == 0 {
        Err(Errors::InvalidLogRecordCrc)
    } else if i < 0 || i >= s.len() {
        Err(Errors::ReadDataFileEOF)
    } else if s[i] < 128 {
        Ok((s[i] as nat, i + 1))
    } else {
        match read_varint_spec(s, i + 1, (fuel - 1) as nat) {
            Ok((v, j)) => Ok((((s[i] - 128) + 128 * v) as nat, j)),
            Err(e) => Err(e),
        }
    }
}

/// Relies on prost::encoding::encode_varint: appends the LEB128 form of `v`.
#[verifier::external_body]
fn put_varint(buf: &mut Vec<u8>, v: u64)
    ensures
        final(buf)@ == old(buf)@ + varint(v as nat),
{
    prost::encoding::encode_varint(v, buf);
}

/// Relies on prost::length_delimiter_len: the number of bytes of the LEB128
/// form of `length`.
#[verifier::external_body]
fn varint_len(length: usize) -> (r: usize)
    ensures
        r == varint(length as nat).len(),
{
    prost::length_delimiter_len(length)
}

proof fn lemma_varint_cap_small(n: nat)
    requires
        n <= 5,
    ensures
        1 <= varint_cap(n) <= varint_cap(5),
        varint_cap(5) == 34359738368,
{
    reveal_with_fuel(varint_cap, 6);
}

proof fn lemma_varint_cap_pos(n: nat)
    ensures
        varint_cap(n) >= 1,
    decreases n,
{
    if n > 0 {
        lemma_varint_cap_pos((n - 1) as nat);
    }
}

/// Reads the varint that starts at `i`, with at most `fuel` bytes.
pub(crate) fn read_varint(buf: &Vec<u8>, i: usize, fuel: u32) -> (r: Result<(u64, usize), Errors>)
    requires
        fuel <= 5,
    ensures
        match (r, read_varint_spec(buf@, i as int, fuel as nat)) {
            (Ok((v, j)), Ok((sv, sj))) => v as nat == sv && j as int == sj && (v as nat) < varint_cap(
                fuel as nat,
            ) && i < j <= buf.len(),
            (Err(e), Err(se)) => e == se,
            _ => false,
        },
    decreases fuel,
{
    if fuel == 0 {
        return Err(Errors::InvalidLogRecordCrc);
    }
    if i >= buf.len() {
        return Err(Errors::ReadDataFileEOF);
    }
    let b = buf[i];
    if b < 128 {
        proof {
            lemma_varint_cap_pos((fuel - 1) as nat);
        }
        return Ok((b as u64, i + 1));
    }
    match read_varint(buf, i + 1, fuel - 1) {
        Ok((v, j)) => {
            proof {
                lemma_varint_cap_small((fuel - 1) as nat);
                let c = varint_cap((fuel - 1) as nat);
                assert(varint_cap(fuel as nat) == 128 * c);
                assert((b - 128) + 128 * v < 128 * c) by (nonlinear_arith)
                    requires b < 256, b >= 128, v < c, v >= 0;
            }
            Ok(((b - 128) as u64 + 128 * v, j))
        },
        Err(e) => Err(e),
    }
}

/// Reading back the varint form of `v` gives `v` and the index just past it.
pub proof fn lemma_read_varint(s: Seq<u8>, i: int, v: nat, fuel: nat)
    requires
        0 <= i,
        i + varint(v).len() <= s.len(),
        s.subrange(i, i + varint(v).len()) == varint(v),
        fuel >= 1,
        v < varint_cap(fuel),
    ensures
        read_varint_spec(s, i, fuel) == Ok::<(nat, int), Errors>((v, i + varint(v).len())),
    decreases v,
{
    assert(s[i] == s.subrange(i, i + varint(v).len())[0]);
    if v >= 128 {
        let w = v / 128;
        let c = varint_cap((fuel - 1) as nat);
        assert(v < 128 * c);
        assert(w < c) by (nonlinear_arith)
            requires w == v / 128, v < 128 * c, v >= 0;
        if fuel == 1 {
            assert(c == 1);
        }
        let n: int = varint(w).len() as int;
        assert(s.subrange(i + 1, i + 1 + n) =~= s.subrange(i, i + varint(v).len()).subrange(1, 1 + n));
        assert(varint(v).subrange(1, 1 + n) =~= varint(w));
        lemma_read_varint(s, i + 1, w, (fuel - 1) as nat);
    }
}

/// Upper bound on the header of an encoded record: the kind byte and two
/// varint lengths of at most 32 bits each.
pub fn max_log_record_header_size() -> (r: usize)
    ensures
        r == 11,
{
    let n = varint_len(0xFFFF_FFFF);
    proof {
        reveal_with_fuel(varint, 6);
    }
    1 + n * 2
}


/// One bit step of the reflected CRC-32 (polynomial 0xEDB88320).
pub open spec fn crc_step(c: u32) -> u32 {
    if c & 1 == 1 {
        (c >> 1) ^ 0xEDB8_8320
    } else {
        c >> 1
    }
}

/// The CRC-32 register after taking in one byte.
pub open spec fn crc_byte(c: u32, b: u8) -> u32 {
    crc_step(crc_step(crc_step(crc_step(crc_step(crc_step(crc_step(crc_step(c ^ (b as u32)))))))))
}

/// The CRC-32 register after taking in every byte of `s`, from the all-ones start.
pub open spec fn crc_state(s: Seq<u8>) -> u32
    decreases s.len(),
{
    if s.len() == 0 {
        0xFFFF_FFFF
    } else {
        crc_byte(crc_state(s.drop_last()), s.last())
    }
}

/// CRC-32 (IEEE) of a byte sequence.
pub open spec fn crc32(s: Seq<u8>) -> u32 {
    crc_state(s) ^ 0xFFFF_FFFF
}

/// Little-endian bytes of a 32-bit integer.
pub open spec fn le_bytes(c: u32) -> Seq<u8> {
    seq![(c & 0xff) as u8, ((c >> 8) & 0xff) as u8, ((c >> 16) & 0xff) as u8, ((c >> 24) & 0xff) as u8]
}

/// The 32-bit integer whose little-endian bytes are `a`, `b`, `c`, `d`.
pub open spec fn le_u32(a: u8, b: u8, c: u8, d: u8) -> u32 {
    (a as u32) | ((b as u32) << 8) | ((c as u32) << 16) | ((d as u32) << 24)
}

proof fn lemma_le_round_trip(c: u32)
    ensures
        le_u32(le_bytes(c)[0], le_bytes(c)[1], le_bytes(c)[2], le_bytes(c)[3]) == c,
{
    assert(((c & 0xff) as u8 as u32) | ((((c >> 8) & 0xff) as u8 as u32) << 8) | ((((c >> 16)
        & 0xff) as u8 as u32) << 16) | ((((c >> 24) & 0xff) as u8 as u32) << 24) == c)
        by (bit_vector);
}

fn crc_step_exec(c: u32) -> (r: u32)
    ensures
        r == crc_step(c),
{
    if c & 1 == 1 {
        (c >> 1) ^ 0xEDB8_8320
    } else {
        c >> 1
    }
}

fn crc_byte_exec(c: u32, b: u8) -> (r: u32)
    ensures
        r == crc_byte(c, b),
{
    let mut x = c ^ (b as u32);
    x = crc_step_exec(x);
    x = crc_step_exec(x);
    x = crc_step_exec(x);
    x = crc_step_exec(x);
    x = crc_step_exec(x);
    x = crc_step_exec(x);
    x = crc_step_exec(x);
    crc_step_exec(x)
}

/// CRC-32 of the bytes of `buf` in `[start, end)`.
pub fn crc32_range(buf: &Vec<u8>, start: usize, end: usize) -> (r: u32)
    requires
        start <= end <= buf.len(),
    ensures
        r == crc32(buf@.subrange(start as int, end as int)),
{
    let mut c: u32 = 0xFFFF_FFFF;
    let mut i: usize = start;
    while i < end
        invariant
            start <= i <= end <= buf.len(),
            c == crc_state(buf@.subrange(start as int, i as int)),
        decreases end - i,
    {
        assert(buf@.subrange(start as int, i + 1).drop_last() =~= buf@.subrange(start as int, i as int));
        c = crc_byte_exec(c, buf[i]);
        i = i + 1;
    }
    c ^ 0xFFFF_FFFF
}

/// Appends the bytes of `src` in `[a, b)` to `out`.
fn append_range(out: &mut Vec<u8>, src: &Vec<u8>, a: usize, b: usize)
    requires
        a <= b <= src.len(),
    ensures
        final(out)@ == old(out)@ + src@.subrange(a as int, b as int),
{
    let mut i: usize = a;
    while i < b
        invariant
            a <= i <= b <= src.len(),
            out@ == old(out)@ + src@.subrange(a as int, i as int),
        decreases b - i,
    {
        out.push(src[i]);
        i = i + 1;
        assert(out@ =~= old(out)@ + src@.subrange(a as int, i as int));
    }
}

/// The part of an encoded record that its checksum covers: kind, key length,
/// value length, key, value.
pub open spec fn record_body(key: Seq<u8>, value: Seq<u8>, t: LogRecordType) -> Seq<u8> {
    seq![type_byte(t)] + varint(key.len()) + varint(value.len()) + key + value
}

/// A whole encoded record: the little-endian CRC-32 of its body, then the body.
pub open spec fn encode_record(key: Seq<u8>, value: Seq<u8>, t: LogRecordType) -> Seq<u8> {
    le_bytes(crc32(record_body(key, value, t))) + record_body(key, value, t)
}

/// What reading a record at `off` of `s` gives: key, value, kind and the
/// number of bytes taken; `ReadDataFileEOF` when the record runs past the end
/// of `s`, `InvalidLogRecordCrc` when its checksum, kind or a length is bad.
pub open spec fn parse_record(s: Seq<u8>, off: int) -> Result<
    (Seq<u8>, Seq<u8>, LogRecordType, nat),
    Errors,
> {
    if off < 0 || off + 5 > s.len() {
        Err(Errors::ReadDataFileEOF)
    } else {
        match read_varint_spec(s, off + 5, 5) {
            Err(e) => Err(e),
            Ok((klen, p)) => match read_varint_spec(s, p, 5) {
                Err(e) => Err(e),
                Ok((vlen, q)) => {
                    let end = q + klen + vlen;
                    if end > s.len() {
                        Err(Errors::ReadDataFileEOF)
                    } else if le_u32(s[off], s[off + 1], s[off + 2], s[off + 3]) != crc32(
                        s.subrange(off + 4, end),
                    ) {
                        Err(Errors::InvalidLogRecordCrc)
                    } else if s[off + 4] < 1 || s[off + 4] > 6 {
                        Err(Errors::InvalidLogRecordCrc)
                    } else {
                        Ok(
                            (
                                s.subrange(q, q + klen),
                                s.subrange(q + klen, end),
                                type_of(s[off + 4]),
                                (end - off) as nat,
                            ),
                        )
                    }
                },
            },
        }
    }
}

impl LogRecord {
    /// The bytes this record is written as.
    pub open spec fn encoded(&self) -> Seq<u8> {
        encode_record(self.key@, self.value@, self.rec_type)
    }

    /// Lengths that the on-disk format can carry.
    pub open spec fn fits(&self) -> bool {
        self.key@.len() <= u32::MAX && self.value@.len() <= u32::MAX
    }

    fn body(&self) -> (r: Vec<u8>)
        ensures
            r@ == record_body(self.key@, self.value@, self.rec_type),
    {
        let mut body: Vec<u8> = Vec::new();
        body.push(self.rec_type.to_u8());
        put_varint(&mut body, self.key.len() as u64);
        put_varint(&mut body, self.value.len() as u64);
        append_range(&mut body, &self.key, 0, self.key.len());
        append_range(&mut body, &self.value, 0, self.value.len());
        assert(self.key@.subrange(0, self.key@.len() as int) =~= self.key@);
        assert(self.value@.subrange(0, self.value@.len() as int) =~= self.value@);
        assert(body@ =~= record_body(self.key@, self.value@, self.rec_type));
        body
    }

    /// Encodes the record as checksum, kind, key length, value length, key
    /// and value.
    pub fn encode(&self) -> (r: Vec<u8>)
        ensures
            r@ == self.encoded(),
    {
        let body = self.body();
        let crc = crc32_range(&body, 0, body.len());
        assert(body@.subrange(0, body@.len() as int) =~= body@);
        let mut out: Vec<u8> = Vec::new();
        out.push((crc & 0xff) as u8);
        out.push(((crc >> 8) & 0xff) as u8);
        out.push(((crc >> 16) & 0xff) as u8);
        out.push(((crc >> 24) & 0xff) as u8);
        append_range(&mut out, &body, 0, body.len());
        assert(out@ =~= self.encoded());
        out
    }

    /// The CRC-32 that guards this record: over every encoded byte but the
    /// checksum itself.
    pub fn get_crc(&self) -> (r: u32)
        ensures
            r == crc32(record_body(self.key@, self.value@, self.rec_type)),
    {
        let body = self.body();
        assert(body@.subrange(0, body@.len() as int) =~= body@);
        crc32_range(&body, 0, body.len())
    }
}

/// Decodes the record that starts at `off` in `buf`.
pub fn decode(buf: &Vec<u8>, off: usize) -> (r: Result<ReadLogRecord, Errors>)
    ensures
        match (r, parse_record(buf@, off as int)) {
            (Ok(rr), Ok((k, v, t, n))) => rr.record.key@ == k && rr.record.value@ == v
                && rr.record.rec_type == t && rr.size == n,
            (Err(e), Err(se)) => e == se,
            _ => false,
        },
{
    if buf.len() < 5 || off > buf.len() - 5 {
        return Err(Errors::ReadDataFileEOF);
    }
    let (klen, p) = match read_varint(buf, off + 5, 5) {
        Ok(x) => x,
        Err(e) => return Err(e),
    };
    let (vlen, q) = match read_varint(buf, p, 5) {
        Ok(x) => x,
        Err(e) => return Err(e),
    };
    let rest: u64 = (buf.len() - q) as u64;
    if klen > rest || vlen > rest - klen {
        return Err(Errors::ReadDataFileEOF);
    }
    let ke: usize = q + klen as usize;
    let ve: usize = ke + vlen as usize;
    let stored = (buf[off] as u32) | ((buf[off + 1] as u32) << 8) | ((buf[off + 2] as u32) << 16)
        | ((buf[off + 3] as u32) << 24);
    let crc = crc32_range(buf, off + 4, ve);
    if stored != crc {
        return Err(Errors::InvalidLogRecordCrc);
    }
    let tb = buf[off + 4];
    if tb < 1 || tb > 6 {
        return Err(Errors::InvalidLogRecordCrc);
    }
    let mut key: Vec<u8> = Vec::new();
    append_range(&mut key, buf, q, ke);
    let mut value: Vec<u8> = Vec::new();
    append_range(&mut value, buf, ke, ve);
    assert(key@ =~= buf@.subrange(q as int, ke as int));
    assert(value@ =~= buf@.subrange(ke as int, ve as int));
    let rec_type = LogRecordType::from_u8(tb);
    Ok(ReadLogRecord { record: LogRecord { key, value, rec_type }, size: ve - off })
}

/// Reading at `off` the bytes that encode a record gives that record back,
/// whatever follows it.
pub proof fn lemma_decode_encoded(
    s: Seq<u8>,
    off: int,
    key: Seq<u8>,
    value: Seq<u8>,
    t: LogRecordType,
)
    requires
        0 <= off,
        key.len() < 34359738368,
        value.len() < 34359738368,
        off + encode_record(key, value, t).len() <= s.len(),
        s.subrange(off, off + encode_record(key, value, t).len()) == encode_record(key, value, t),
    ensures
        parse_record(s, off) == Ok::<(Seq<u8>, Seq<u8>, LogRecordType, nat), Errors>(
            (key, value, t, encode_record(key, value, t).len()),
        ),
{
    let body = record_body(key, value, t);
    let enc = encode_record(key, value, t);
    let lk = varint(key.len()).len() as int;
    let lv = varint(value.len()).len() as int;
    let n = enc.len() as int;
    assert forall|j: int| 0 <= j < n implies s[off + j] == enc[j] by {
        assert(s.subrange(off, off + n)[j] == s[off + j]);
    }
    lemma_varint_cap_small(5);
    assert(le_bytes(crc32(body)).len() == 4);
    assert(enc.subrange(4, n) =~= body);
    assert forall|j: int| 0 <= j < lk implies s[off + 5 + j] == varint(key.len())[j] by {
        assert(enc[5 + j] == body[1 + j]);
    }
    assert forall|j: int| 0 <= j < lv implies s[off + 5 + lk + j] == varint(value.len())[j] by {
        assert(enc[5 + lk + j] == body[1 + lk + j]);
    }
    assert(s.subrange(off + 5, off + 5 + lk) =~= varint(key.len()));
    lemma_read_varint(s, off + 5, key.len(), 5);
    assert(s.subrange(off + 5 + lk, off + 5 + lk + lv) =~= varint(value.len()));
    lemma_read_varint(s, off + 5 + lk, value.len(), 5);
    let q = off + 5 + lk + lv;
    assert(n == 5 + lk + lv + key.len() + value.len());
    assert(s.subrange(off + 4, off + n) =~= body);
    lemma_le_round_trip(crc32(body));
    assert forall|j: int| 0 <= j < key.len() implies s[q + j] == key[j] by {
        assert(enc[5 + lk + lv + j] == body[1 + lk + lv + j]);
    }
    assert forall|j: int| 0 <= j < value.len() implies s[q + key.len() + j] == value[j] by {
        assert(enc[5 + lk + lv + key.len() + j] == body[1 + lk + lv + key.len() + j]);
    }
    assert(s.subrange(q, q + key.len()) =~= key);
    assert(s.subrange(q + key.len(), off + n) =~= value);
    assert(enc[4] == body[0]);
    assert(s[off + 4] == type_byte(t));
    let lb = le_bytes(crc32(body));
    assert(s[off] == lb[0] && s[off + 1] == lb[1] && s[off + 2] == lb[2] && s[off + 3] == lb[3]) by {
        assert(enc[0] == lb[0] && enc[1] == lb[1] && enc[2] == lb[2] && enc[3] == lb[3]);
    }
    match t {
        LogRecordType::NOMAL => {},
        LogRecordType::DELETED => {},
        LogRecordType::BATCH_NORMAL => {},
        LogRecordType::BATCH_DELETED => {},
        LogRecordType::BATCH_BEGIN => {},
        LogRecordType::BATCH_FINISHED => {},
    }
}


/// Two byte sequences that agree on `[0, e)` agree on every range inside it.
pub proof fn lemma_agree_range(s: Seq<u8>, t: Seq<u8>, e: int, a: int, b: int)
    requires
        0 <= a <= b <= e <= s.len(),
        e <= t.len(),
        s.subrange(0, e) == t.subrange(0, e),
    ensures
        s.subrange(a, b) == t.subrange(a, b),
        forall|j: int| a <= j < b ==> s[j] == t[j],
{
    assert forall|j: int| a <= j < b implies s[j] == t[j] by {
        assert(s.subrange(0, e)[j] == s[j]);
        assert(t.subrange(0, e)[j] == t[j]);
        assert(s.subrange(0, e)[j] == t.subrange(0, e)[j]);
    }
    assert(s.subrange(a, b) =~= t.subrange(a, b));
}

proof fn lemma_read_varint_agree(s: Seq<u8>, t: Seq<u8>, i: int, fuel: nat, e: int)
    requires
        read_varint_spec(s, i, fuel) is Ok,
        read_varint_spec(s, i, fuel)->Ok_0.1 <= e <= s.len(),
        e <= t.len(),
        s.subrange(0, e) == t.subrange(0, e),
    ensures
        read_varint_spec(t, i, fuel) == read_varint_spec(s, i, fuel),
    decreases fuel,
{
    lemma_read_varint_end(s, i, fuel);
    if fuel > 0 && 0 <= i < s.len() {
        lemma_agree_range(s, t, e, i, i + 1);
        if s[i] >= 128 {
            lemma_read_varint_agree(s, t, i + 1, (fuel - 1) as nat, e);
        }
    }
}

proof fn lemma_read_varint_end(s: Seq<u8>, i: int, fuel: nat)
    requires
        read_varint_spec(s, i, fuel) is Ok,
    ensures
        i < read_varint_spec(s, i, fuel)->Ok_0.1 <= s.len(),
    decreases fuel,
{
    if fuel > 0 && 0 <= i < s.len() && s[i] >= 128 {
        lemma_read_varint_end(s, i + 1, (fuel - 1) as nat);
    }
}

/// A record that reads at `off` of `s` reads the same in any `t` that agrees
/// with `s` up to the record's end: appending to a file, or cutting off what
/// follows a record, leaves it readable.
pub proof fn lemma_parse_agree(s: Seq<u8>, t: Seq<u8>, off: int, e: int)
    requires
        parse_record(s, off) is Ok,
        off + parse_record(s, off)->Ok_0.3 <= e <= s.len(),
        e <= t.len(),
        s.subrange(0, e) == t.subrange(0, e),
    ensures
        parse_record(t, off) == parse_record(s, off),
{
    lemma_read_varint_end(s, off + 5, 5);
    let (klen, p) = read_varint_spec(s, off + 5, 5)->Ok_0;
    lemma_read_varint_end(s, p, 5);
    let (vlen, q) = read_varint_spec(s, p, 5)->Ok_0;
    let end = q + klen + vlen;
    lemma_read_varint_agree(s, t, off + 5, 5, e);
    lemma_read_varint_agree(s, t, p, 5, e);
    lemma_agree_range(s, t, e, off, end);
    lemma_agree_range(s, t, e, off + 4, end);
    lemma_agree_range(s, t, e, q, q + klen);
    lemma_agree_range(s, t, e, q + klen, end);
}

proof fn lemma_read_varint_cap(s: Seq<u8>, i: int, fuel: nat)
    requires
        read_varint_spec(s, i, fuel) is Ok,
    ensures
        read_varint_spec(s, i, fuel)->Ok_0.0 < varint_cap(fuel),
    decreases fuel,
{
    if fuel > 0 && 0 <= i < s.len() {
        lemma_varint_cap_pos((fuel - 1) as nat);
        if s[i] >= 128 {
            lemma_read_varint_cap(s, i + 1, (fuel - 1) as nat);
            let v = read_varint_spec(s, i + 1, (fuel - 1) as nat)->Ok_0.0;
            let c = varint_cap((fuel - 1) as nat);
            let b = s[i];
            assert((b - 128) + 128 * v < 128 * c) by (nonlinear_arith)
                requires b < 256, b >= 128, v < c, v >= 0;
        }
    }
}

/// The key and value of a record that reads are shorter than 2^35 bytes.
pub proof fn lemma_parse_lengths(s: Seq<u8>, off: int)
    requires
        parse_record(s, off) is Ok,
    ensures
        parse_record(s, off)->Ok_0.0.len() < 34359738368,
        parse_record(s, off)->Ok_0.1.len() < 34359738368,
{
    lemma_varint_cap_small(5);
    lemma_read_varint_cap(s, off + 5, 5);
    lemma_read_varint_end(s, off + 5, 5);
    let (klen, p) = read_varint_spec(s, off + 5, 5)->Ok_0;
    lemma_read_varint_cap(s, p, 5);
    lemma_read_varint_end(s, p, 5);
    let (vlen, q) = read_varint_spec(s, p, 5)->Ok_0;
    assert(parse_record(s, off)->Ok_0.0.len() == klen);
    assert(parse_record(s, off)->Ok_0.1.len() == vlen);
}

/// A record that reads takes at least its checksum and kind bytes.
pub proof fn lemma_parse_size(s: Seq<u8>, off: int)
    requires
        parse_record(s, off) is Ok,
    ensures
        parse_record(s, off)->Ok_0.3 >= 5,
        off + parse_record(s, off)->Ok_0.3 <= s.len(),
{
    lemma_read_varint_end(s, off + 5, 5);
    let (klen, p) = read_varint_spec(s, off + 5, 5)->Ok_0;
    lemma_read_varint_end(s, p, 5);
}


/// Where the record that starts at `off` would end, going by its two
/// lengths alone; `None` where the lengths cannot be read.
pub open spec fn record_end(s: Seq<u8>, off: int) -> Option<int> {
    match read_varint_spec(s, off + 5, 5) {
        Ok((klen, p)) => match read_varint_spec(s, p, 5) {
            Ok((vlen, q)) => Some(q + klen + vlen),
            Err(_) => None,
        },
        Err(_) => None,
    }
}

/// Whether the record at `off` would end exactly at the end of `buf`.
pub fn ends_at_end(buf: &Vec<u8>, off: usize) -> (r: bool)
    ensures
        r == (record_end(buf@, off as int) == Some(buf@.len() as int)),
{
    if off > buf.len() || buf.len() - off < 5 {
        proof {
            if off + 5 > buf@.len() {
                if read_varint_spec(buf@, off + 5, 5) is Ok {
                    lemma_read_varint_end(buf@, off + 5, 5);
                }
            }
        }
        return false;
    }
    match read_varint(buf, off + 5, 5) {
        Ok((klen, p)) => match read_varint(buf, p, 5) {
            Ok((vlen, q)) => {
                let rest: u64 = (buf.len() - q) as u64;
                klen <= rest && vlen == rest - klen
            },
            Err(_) => false,
        },
        Err(_) => false,
    }
}

} // verus!
