//! The classic pcap capture format: a 24-byte global header, then records
//! of a 16-byte header and the captured bytes. Files of either byte order
//! and of microsecond or nanosecond timestamps are read; files are written
//! little-endian with microseconds.
use vstd::prelude::*;

use crate::packet::{be32_spec, LinkType};
use crate::text::{decimal_spec, hex_digit_spec, push_char, push_decimal, push_str};

verus! {

pub const MAGIC_MICROS: u32 = 0xA1B2_C3D4;
pub const MAGIC_NANOS: u32 = 0xA1B2_3C4D;
pub const GLOBAL_HEADER_LEN: usize = 24;
pub const RECORD_HEADER_LEN: usize = 16;
pub const VERSION_MAJOR: u16 = 2;
pub const VERSION_MINOR: u16 = 4;
/// The largest record body that is read.
pub const MAX_RECORD_LEN: u32 = 262_144;
pub const MICROS_PER_SEC: u64 = 1_000_000;
pub const NANOS_PER_MICRO: u64 = 1_000;

/// The kind of an I/O failure, as std's `io::ErrorKind` names it.
#[derive(Debug, Clone, Copy, PartialEq, Eq, Structural)]
pub enum IoErrorKind {
    /// The data ended before what had to be read.
    UnexpectedEof,
    /// A value cannot be written in the file's format.
    InvalidInput,
    /// Any other failure of the reader or writer.
    Other,
}

/// Why a capture could not be read or written.
#[derive(Debug, Clone, PartialEq, Eq)]
pub enum PcapError {
    /// Reading or writing failed (the I/O error's kind and message).
    Io(IoErrorKind, String),
    /// The file does not start with a pcap magic number (the number read).
    BadMagic(u32),
    UnsupportedLinkType(u32),
    /// A record header announces more than `MAX_RECORD_LEN` bytes.
    RecordTooLarge(u32),
    /// The file ends in the middle of a record.
    TruncatedRecord,
}

pub enum PcapErrorModel {
    Io(IoErrorKind, Seq<char>),
    BadMagic(u32),
    UnsupportedLinkType(u32),
    RecordTooLarge(u32),
    TruncatedRecord,
}

impl View for PcapError {
    type V = PcapErrorModel;

    open spec fn view(&self) -> PcapErrorModel {
        match self {
            PcapError::Io(k, m) => PcapErrorModel::Io(*k, m@),
            PcapError::BadMagic(m) => PcapErrorModel::BadMagic(*m),
            PcapError::UnsupportedLinkType(t) => PcapErrorModel::UnsupportedLinkType(*t),
            PcapError::RecordTooLarge(n) => PcapErrorModel::RecordTooLarge(*n),
            PcapError::TruncatedRecord => PcapErrorModel::TruncatedRecord,
        }
    }
}

pub open spec fn pow16(n: nat) -> nat
    decreases n,
{
    if n == 0 { 1 } else { 16 * pow16((n - 1) as nat) }
}

/// `m` as eight lower-case hexadecimal digits.
pub open spec fn hex8_spec(m: u32) -> Seq<char> {
    Seq::new(8, |i: int| hex_digit_spec(((m as nat / pow16((7 - i) as nat)) % 16) as nat))
}

impl PcapErrorModel {
    pub open spec fn describe_spec(self) -> Seq<char> {
        match self {
            PcapErrorModel::Io(_, e) => "pcap io: "@ + e,
            PcapErrorModel::BadMagic(m) => "not a pcap file (magic 0x"@ + hex8_spec(m) + ")"@,
            PcapErrorModel::UnsupportedLinkType(t) => "unsupported link type "@ + decimal_spec(t as nat),
            PcapErrorModel::RecordTooLarge(n) => "record of "@ + decimal_spec(n as nat) + " bytes exceeds limit"@,
            PcapErrorModel::TruncatedRecord => "file ends in the middle of a record"@,
        }
    }
}

fn push_hex8(s: &mut String, m: u32)
    ensures
        final(s)@ == old(s)@ + hex8_spec(m),
{
    let ghost start = s@;
    proof {
        reveal_with_fuel(pow16, 8);
    }
    let mut d: u32 = 0x1000_0000;
    let mut i: usize = 0;
    while i < 8
        invariant
            i <= 8,
            i < 8 ==> d as nat == pow16((7 - i) as nat),
            s@ == start + hex8_spec(m).take(i as int),
        decreases 8 - i,
    {
        proof {
            reveal_with_fuel(pow16, 8);
        }
        let digit = (m / d) % 16;
        let c = if digit < 10 { ((digit as u8) + 48) as char } else { ((digit as u8) - 10 + 97) as char };
        push_char(s, c);
        assert(hex8_spec(m).take(i as int + 1) =~= hex8_spec(m).take(i as int).push(c));
        if i < 7 {
            d = d / 16;
        }
        i += 1;
    }
    assert(hex8_spec(m).take(8) =~= hex8_spec(m));
}

impl PcapError {
    /// The error as a sentence.
    pub fn describe(&self) -> (s: String)
        ensures
            s@ == self@.describe_spec(),
    {
        let mut s = String::new();
        match self {
            PcapError::Io(_, e) => {
                push_str(&mut s, "pcap io: ");
                push_str(&mut s, e.as_str());
            },
            PcapError::BadMagic(m) => {
                push_str(&mut s, "not a pcap file (magic 0x");
                push_hex8(&mut s, *m);
                push_str(&mut s, ")");
            },
            PcapError::UnsupportedLinkType(t) => {
                push_str(&mut s, "unsupported link type ");
                push_decimal(&mut s, *t as u64);
            },
            PcapError::RecordTooLarge(n) => {
                push_str(&mut s, "record of ");
                push_decimal(&mut s, *n as u64);
                push_str(&mut s, " bytes exceeds limit");
            },
            PcapError::TruncatedRecord => {
                push_str(&mut s, "file ends in the middle of a record");
            },
        }
        assert(s@ =~= self@.describe_spec());
        s
    }
}

/// The header of one record.
#[derive(Debug, Clone, Copy, PartialEq, Eq, Structural)]
pub struct RecordHeader {
    pub ts_us: u64,
    pub cap_len: u32,
    pub wire_len: u32,
}

pub open spec fn le32_spec(s: Seq<u8>, at: int) -> u32 {
    (s[at] as int + s[at + 1] as int * 0x100 + s[at + 2] as int * 0x1_0000 + s[at + 3] as int * 0x100_0000) as u32
}

/// A 32-bit field of a file: little-endian, or big-endian in a file of the
/// other byte order.
pub open spec fn read32_spec(s: Seq<u8>, at: int, swapped: bool) -> u32 {
    if swapped { be32_spec(s, at) } else { le32_spec(s, at) }
}

/// The message std gives when a read ends before the buffer is full.
pub open spec fn short_read_message() -> Seq<char> {
    "failed to fill whole buffer"@
}

/// What the global header of a file says: its link type, whether its byte
/// order is swapped, and whether its timestamps are in nanoseconds.
pub open spec fn global_spec(d: Seq<u8>) -> Result<(LinkType, bool, bool), PcapErrorModel> {
    if d.len() < GLOBAL_HEADER_LEN {
        Err(PcapErrorModel::Io(IoErrorKind::UnexpectedEof, short_read_message()))
    } else {
        let m = le32_spec(d, 0);
        let order: Option<(bool, bool)> = if m == MAGIC_MICROS {
            Some((false, false))
        } else if m == MAGIC_NANOS {
            Some((false, true))
        } else if be32_spec(d, 0) == MAGIC_MICROS {
            Some((true, false))
        } else if be32_spec(d, 0) == MAGIC_NANOS {
            Some((true, true))
        } else {
            None
        };
        match order {
            None => Err(PcapErrorModel::BadMagic(m)),
            Some((swapped, nanos)) => {
                let raw = read32_spec(d, 20, swapped);
                match LinkType::from_raw_spec(raw) {
                    Some(link) => Ok((link, swapped, nanos)),
                    None => Err(PcapErrorModel::UnsupportedLinkType(raw)),
                }
            },
        }
    }
}

/// The record at `pos` of `d`: nothing at the end of the data; else its
/// header and where its body starts. The second component is where reading
/// goes on: after the record, after its header when it is too large, or at
/// the end when the data ends inside it.
pub open spec fn record_spec(d: Seq<u8>, pos: int, swapped: bool, nanos: bool) -> (
    Result<Option<(RecordHeader, int)>, PcapErrorModel>,
    int,
) {
    if pos >= d.len() {
        (Ok(None), pos)
    } else if d.len() - pos < RECORD_HEADER_LEN {
        (Err(PcapErrorModel::TruncatedRecord), d.len() as int)
    } else {
        let sec = read32_spec(d, pos, swapped);
        let frac = read32_spec(d, pos + 4, swapped);
        let cap_len = read32_spec(d, pos + 8, swapped);
        let wire_len = read32_spec(d, pos + 12, swapped);
        if cap_len > MAX_RECORD_LEN {
            (Err(PcapErrorModel::RecordTooLarge(cap_len)), pos + RECORD_HEADER_LEN)
        } else if d.len() - pos - RECORD_HEADER_LEN < cap_len {
            (Err(PcapErrorModel::TruncatedRecord), d.len() as int)
        } else {
            let micros = if nanos { frac / 1000 } else { frac };
            (
                Ok(
                    Some(
                        (
                            RecordHeader { ts_us: (sec * MICROS_PER_SEC + micros) as u64, cap_len, wire_len },
                            pos + RECORD_HEADER_LEN,
                        ),
                    ),
                ),
                pos + RECORD_HEADER_LEN + cap_len,
            )
        }
    }
}

fn read_le32(d: &[u8], at: usize) -> (v: u32)
    requires
        at + 4 <= d@.len(),
    ensures
        v == le32_spec(d@, at as int),
{
    d[at] as u32 + (d[at + 1] as u32) * 0x100 + (d[at + 2] as u32) * 0x1_0000 + (d[at + 3] as u32) * 0x100_0000
}

fn read_be32(d: &[u8], at: usize) -> (v: u32)
    requires
        at + 4 <= d@.len(),
    ensures
        v == be32_spec(d@, at as int),
{
    (d[at] as u32) * 0x100_0000 + (d[at + 1] as u32) * 0x1_0000 + (d[at + 2] as u32) * 0x100 + d[at + 3] as u32
}

fn read32(d: &[u8], at: usize, swapped: bool) -> (v: u32)
    requires
        at + 4 <= d@.len(),
    ensures
        v == read32_spec(d@, at as int, swapped),
{
    if swapped { read_be32(d, at) } else { read_le32(d, at) }
}

/// Reads the records of a capture held in memory.
pub struct PcapReader<'a> {
    data: &'a [u8],
    pos: usize,
    link: LinkType,
    swapped: bool,
    nanos: bool,
}

impl<'a> PcapReader<'a> {
    pub closed spec fn bytes(&self) -> Seq<u8> {
        self.data@
    }

    /// Where the next record starts.
    pub closed spec fn position(&self) -> int {
        self.pos as int
    }

    pub closed spec fn link_spec(&self) -> LinkType {
        self.link
    }

    pub closed spec fn swapped(&self) -> bool {
        self.swapped
    }

    pub closed spec fn nanos(&self) -> bool {
        self.nanos
    }

    pub closed spec fn wf(&self) -> bool {
        self.pos <= self.data@.len()
    }

    /// The position lies within the data.
    pub proof fn lemma_position(&self)
        requires
            self.wf(),
        ensures
            0 <= self.position() <= self.bytes().len(),
    {
    }

    /// Reads the global header of `data` (see `global_spec`).
    pub fn new(data: &'a [u8]) -> (r: Result<Self, PcapError>)
        ensures
            match global_spec(data@) {
                Ok((link, swapped, nanos)) => r matches Ok(rd) && rd.wf() && rd.bytes() == data@ && rd.position()
                    == GLOBAL_HEADER_LEN && rd.link_spec() == link && rd.swapped() == swapped && rd.nanos() == nanos,
                Err(e) => r matches Err(x) && x@ == e,
            },
    {
        if data.len() < GLOBAL_HEADER_LEN {
            let r = Err(PcapError::Io(IoErrorKind::UnexpectedEof, "failed to fill whole buffer".to_owned()));
            return r;
        }
        let m = read_le32(data, 0);
        let be = read_be32(data, 0);
        let (swapped, nanos) = if m == MAGIC_MICROS {
            (false, false)
        } else if m == MAGIC_NANOS {
            (false, true)
        } else if be == MAGIC_MICROS {
            (true, false)
        } else if be == MAGIC_NANOS {
            (true, true)
        } else {
            return Err(PcapError::BadMagic(m));
        };
        let raw = read32(data, 20, swapped);
        match LinkType::from_raw(raw) {
            Some(link) => Ok(PcapReader { data, pos: GLOBAL_HEADER_LEN, link, swapped, nanos }),
            None => Err(PcapError::UnsupportedLinkType(raw)),
        }
    }

    pub fn link_type(&self) -> (l: LinkType)
        ensures
            l == self.link_spec(),
    {
        self.link
    }

    /// Reads the next record into `buf` (see `record_spec`): `None` at the
    /// end of the data. `buf` changes only when a record is read.
    pub fn next_record(&mut self, buf: &mut Vec<u8>) -> (r: Result<Option<RecordHeader>, PcapError>)
        requires
            old(self).wf(),
        ensures
            final(self).wf(),
            final(self).bytes() == old(self).bytes(),
            final(self).link_spec() == old(self).link_spec(),
            final(self).swapped() == old(self).swapped(),
            final(self).nanos() == old(self).nanos(),
            ({
                let (res, next) = record_spec(old(self).bytes(), old(self).position(), old(self).swapped(), old(self).nanos());
                &&& final(self).position() == next
                &&& match res {
                    Ok(None) => r matches Ok(None) && final(buf)@ == old(buf)@,
                    Ok(Some((h, body))) => r == Ok::<Option<RecordHeader>, PcapError>(Some(h)) && final(buf)@
                        == old(self).bytes().subrange(body, body + h.cap_len),
                    Err(e) => r matches Err(x) && x@ == e && final(buf)@ == old(buf)@,
                }
            }),
    {
        let len = self.data.len();
        if self.pos >= len {
            return Ok(None);
        }
        if len - self.pos < RECORD_HEADER_LEN {
            self.pos = len;
            return Err(PcapError::TruncatedRecord);
        }
        let at = self.pos;
        let sec = read32(self.data, at, self.swapped);
        let frac = read32(self.data, at + 4, self.swapped);
        let cap_len = read32(self.data, at + 8, self.swapped);
        let wire_len = read32(self.data, at + 12, self.swapped);
        if cap_len > MAX_RECORD_LEN {
            self.pos = at + RECORD_HEADER_LEN;
            return Err(PcapError::RecordTooLarge(cap_len));
        }
        let body = at + RECORD_HEADER_LEN;
        if len - body < cap_len as usize {
            self.pos = len;
            return Err(PcapError::TruncatedRecord);
        }
        let end = body + cap_len as usize;
        buf.clear();
        let mut i = body;
        while i < end
            invariant
                body <= i <= end <= self.data@.len(),
                buf@ == self.data@.subrange(body as int, i as int),
            decreases end - i,
        {
            buf.push(self.data[i]);
            assert(self.data@.subrange(body as int, i + 1) =~= self.data@.subrange(body as int, i as int).push(
                self.data@[i as int],
            ));
            i += 1;
        }
        self.pos = end;
        let micros = if self.nanos { frac as u64 / NANOS_PER_MICRO } else { frac as u64 };
        Ok(Some(RecordHeader { ts_us: sec as u64 * MICROS_PER_SEC + micros, cap_len, wire_len }))
    }
}

pub open spec fn le_bytes32(x: u32) -> Seq<u8> {
    seq![(x % 0x100) as u8, ((x / 0x100) % 0x100) as u8, ((x / 0x1_0000) % 0x100) as u8, (x / 0x100_0000) as u8]
}

pub open spec fn le_bytes16(x: u16) -> Seq<u8> {
    seq![(x % 0x100) as u8, (x / 0x100) as u8]
}

/// The global header that is written: the microsecond magic, version 2.4,
/// zero time zone and accuracy, the snapshot length and the link type, all
/// little-endian.
pub open spec fn global_header_spec(link: LinkType, snaplen: u32) -> Seq<u8> {
    le_bytes32(MAGIC_MICROS) + le_bytes16(VERSION_MAJOR) + le_bytes16(VERSION_MINOR) + le_bytes32(0) + le_bytes32(0)
        + le_bytes32(snaplen) + le_bytes32(link.raw_spec())
}

/// The bytes of one written record: seconds, microseconds, the length
/// twice, then the data.
pub open spec fn record_bytes(ts_us: u64, data: Seq<u8>) -> Seq<u8> {
    le_bytes32((ts_us / MICROS_PER_SEC) as u32) + le_bytes32((ts_us % MICROS_PER_SEC) as u32) + le_bytes32(
        data.len() as u32,
    ) + le_bytes32(data.len() as u32) + data
}

proof fn lemma_le32(x: u32, s: Seq<u8>, at: int)
    requires
        0 <= at,
        at + 4 <= s.len(),
        s.subrange(at, at + 4) == le_bytes32(x),
    ensures
        le32_spec(s, at) == x,
{
    assert(s[at] == s.subrange(at, at + 4)[0]);
    assert(s[at + 1] == s.subrange(at, at + 4)[1]);
    assert(s[at + 2] == s.subrange(at, at + 4)[2]);
    assert(s[at + 3] == s.subrange(at, at + 4)[3]);
    let a = x % 0x100;
    let b = (x / 0x100) % 0x100;
    let c = (x / 0x1_0000) % 0x100;
    let e = x / 0x100_0000;
    assert(a + b * 0x100 + c * 0x1_0000 + e * 0x100_0000 == x) by (nonlinear_arith)
        requires
            a == x % 0x100,
            b == (x / 0x100) % 0x100,
            c == (x / 0x1_0000) % 0x100,
            e == x / 0x100_0000,
    ;
}

/// The four bytes of `d` at `at` as a number: least significant first, or,
/// when `big`, most significant first.
pub open spec fn word_at(d: Seq<u8>, at: int, big: bool) -> int {
    if big {
        d[at] as int * 0x100_0000 + d[at + 1] as int * 0x1_0000 + d[at + 2] as int * 0x100 + d[at + 3] as int
    } else {
        d[at] as int + d[at + 1] as int * 0x100 + d[at + 2] as int * 0x1_0000 + d[at + 3] as int * 0x100_0000
    }
}

/// The four magics a capture may start with, each with its byte order (big-
/// endian or not) and whether its timestamps count nanoseconds:
/// D4 C3 B2 A1 (little-endian, microseconds), 4D 3C B2 A1 (little-endian,
/// nanoseconds), A1 B2 C3 D4 (big-endian, microseconds) and A1 B2 3C 4D
/// (big-endian, nanoseconds).
pub open spec fn magic_kind(d: Seq<u8>) -> Option<(bool, bool)> {
    if d[0] == 0xD4 && d[1] == 0xC3 && d[2] == 0xB2 && d[3] == 0xA1 {
        Some((false, false))
    } else if d[0] == 0x4D && d[1] == 0x3C && d[2] == 0xB2 && d[3] == 0xA1 {
        Some((false, true))
    } else if d[0] == 0xA1 && d[1] == 0xB2 && d[2] == 0xC3 && d[3] == 0xD4 {
        Some((true, false))
    } else if d[0] == 0xA1 && d[1] == 0xB2 && d[2] == 0x3C && d[3] == 0x4D {
        Some((true, true))
    } else {
        None
    }
}

/// The first four bytes of a capture decide how its records are read. A
/// file of at least a global header's length is refused for its magic
/// exactly when it starts with none of the four magics. Otherwise, with
/// every field read in the magic's byte order, each record that is read
/// has the time of its seconds field (bytes 0-3) times a million plus its
/// fraction field (bytes 4-7), the fraction divided by 1000 when it counts
/// nanoseconds, the captured length of bytes 8-11 and the wire length of
/// bytes 12-15.
pub proof fn lemma_record_header_fields(d: Seq<u8>, pos: int)
    requires
        4 <= d.len(),
        0 <= pos,
    ensures
        d.len() >= GLOBAL_HEADER_LEN ==> ((global_spec(d) is Err && global_spec(d)->Err_0 is BadMagic)
            <==> magic_kind(d) is None),
        global_spec(d) matches Ok((_, swapped, nanos)) ==> (record_spec(d, pos, swapped, nanos).0 matches Ok(
            Some((h, _)),
        ) ==> (magic_kind(d) matches Some((big, ns)) && {
            &&& h.ts_us == word_at(d, pos, big) * 1_000_000 + if ns {
                word_at(d, pos + 4, big) / 1000
            } else {
                word_at(d, pos + 4, big)
            }
            &&& h.cap_len == word_at(d, pos + 8, big)
            &&& h.wire_len == word_at(d, pos + 12, big)
        })),
{
    if pos + RECORD_HEADER_LEN <= d.len() {
        assert(0 <= d[pos + 2] as int * 0x1_0000 <= 0xFF_0000);
        assert(0 <= d[pos + 3] as int * 0x100_0000 <= 0xFF00_0000);
        assert(0 <= d[pos + 6] as int * 0x1_0000 <= 0xFF_0000);
        assert(0 <= d[pos + 7] as int * 0x100_0000 <= 0xFF00_0000);
        assert(0 <= d[pos + 10] as int * 0x1_0000 <= 0xFF_0000);
        assert(0 <= d[pos + 11] as int * 0x100_0000 <= 0xFF00_0000);
        assert(0 <= d[pos + 14] as int * 0x1_0000 <= 0xFF_0000);
        assert(0 <= d[pos + 15] as int * 0x100_0000 <= 0xFF00_0000);
    }
}

/// A header that was written reads back as what it was written with, in
/// the file's own byte order and with microseconds.
pub proof fn lemma_header_reads_back(link: LinkType, snaplen: u32, rest: Seq<u8>)
    ensures
        global_spec(global_header_spec(link, snaplen) + rest) == Ok::<(LinkType, bool, bool), PcapErrorModel>((link, false, false)),
{
    let d = global_header_spec(link, snaplen) + rest;
    assert(d.subrange(0, 4) =~= le_bytes32(MAGIC_MICROS));
    lemma_le32(MAGIC_MICROS, d, 0);
    assert(d.subrange(20, 24) =~= le_bytes32(link.raw_spec()));
    lemma_le32(link.raw_spec(), d, 20);
}

/// A record that was written reads back: its time, its length as both the
/// captured and the wire length, and its data, with reading going on right
/// after it. This holds for data of at most `MAX_RECORD_LEN` bytes, the
/// most that is read, and times that 32-bit seconds hold, the ones that
/// are written.
pub proof fn lemma_record_reads_back(before: Seq<u8>, ts_us: u64, data: Seq<u8>, rest: Seq<u8>)
    requires
        data.len() <= MAX_RECORD_LEN,
        ts_us / MICROS_PER_SEC <= u32::MAX,
    ensures
        ({
            let d = before + record_bytes(ts_us, data) + rest;
            let p = before.len() as int;
            &&& record_spec(d, p, false, false) == (
                Ok::<Option<(RecordHeader, int)>, PcapErrorModel>(
                    Some((RecordHeader { ts_us, cap_len: data.len() as u32, wire_len: data.len() as u32 }, p + 16)),
                ),
                p + 16 + data.len(),
            )
            &&& d.subrange(p + 16, p + 16 + data.len()) == data
        }),
{
    let d = before + record_bytes(ts_us, data) + rest;
    let p = before.len() as int;
    let sec = (ts_us / MICROS_PER_SEC) as u32;
    let usec = (ts_us % MICROS_PER_SEC) as u32;
    let n = data.len() as u32;
    assert(d.subrange(p, p + 4) =~= le_bytes32(sec));
    assert(d.subrange(p + 4, p + 8) =~= le_bytes32(usec));
    assert(d.subrange(p + 8, p + 12) =~= le_bytes32(n));
    assert(d.subrange(p + 12, p + 16) =~= le_bytes32(n));
    lemma_le32(sec, d, p);
    lemma_le32(usec, d, p + 4);
    lemma_le32(n, d, p + 8);
    lemma_le32(n, d, p + 12);
    assert(d.subrange(p + 16, p + 16 + data.len()) =~= data);
}

/// The records of `frames`, one after another.
pub open spec fn records_bytes(frames: Seq<(u64, Seq<u8>)>) -> Seq<u8>
    decreases frames.len(),
{
    if frames.len() == 0 {
        Seq::empty()
    } else {
        record_bytes(frames[0].0, frames[0].1) + records_bytes(frames.drop_first())
    }
}

/// A frame that a record can hold: at most `u32::MAX` bytes, at a time
/// whose seconds 32 bits hold.
pub open spec fn writable(f: (u64, Seq<u8>)) -> bool {
    f.1.len() <= u32::MAX && f.0 / MICROS_PER_SEC <= u32::MAX
}

/// The header that a written frame reads back with: its time, and its
/// length as both lengths.
pub open spec fn written_header(frame: (u64, Seq<u8>)) -> RecordHeader {
    RecordHeader { ts_us: frame.0, cap_len: frame.1.len() as u32, wire_len: frame.1.len() as u32 }
}

/// Reading from `pos` on gives a record for each of `frames`, in order,
/// with its time, its length as both lengths and its data, and then the
/// end of the capture.
#[verifier::opaque]
pub open spec fn reads_back(d: Seq<u8>, pos: int, frames: Seq<(u64, Seq<u8>)>) -> bool
    decreases frames.len(),
{
    if frames.len() == 0 {
        record_spec(d, pos, false, false).0 == Ok::<Option<(RecordHeader, int)>, PcapErrorModel>(None)
    } else {
        let data = frames[0].1;
        let body = pos + RECORD_HEADER_LEN;
        let h = written_header(frames[0]);
        &&& record_spec(d, pos, false, false) == (
            Ok::<Option<(RecordHeader, int)>, PcapErrorModel>(Some((h, body))),
            body + data.len(),
        )
        &&& d.subrange(body, body + data.len()) == data
        &&& reads_back(d, body + data.len(), frames.drop_first())
    }
}

proof fn lemma_records_bytes_push(fs: Seq<(u64, Seq<u8>)>, f: (u64, Seq<u8>))
    ensures
        records_bytes(fs.push(f)) == records_bytes(fs) + record_bytes(f.0, f.1),
    decreases fs.len(),
{
    if fs.len() == 0 {
        assert(fs.push(f).drop_first() =~= Seq::<(u64, Seq<u8>)>::empty());
        assert(records_bytes(fs.push(f).drop_first()) == Seq::<u8>::empty());
        assert(records_bytes(fs) == Seq::<u8>::empty());
        assert(records_bytes(fs.push(f)) =~= records_bytes(fs) + record_bytes(f.0, f.1));
    } else {
        assert(fs.push(f).drop_first() =~= fs.drop_first().push(f));
        lemma_records_bytes_push(fs.drop_first(), f);
        assert(records_bytes(fs.push(f)) =~= records_bytes(fs) + record_bytes(f.0, f.1));
    }
}

proof fn lemma_capture_ok(fs: Seq<(u64, Seq<u8>)>, link: LinkType, snaplen: u32)
    requires
        forall|i: int| 0 <= i < fs.len() ==> writable(#[trigger] fs[i]),
    ensures
        capture_spec(fs, link, snaplen) == Ok::<Seq<u8>, PcapErrorModel>(
            global_header_spec(link, snaplen) + records_bytes(fs),
        ),
    decreases fs.len(),
{
    if fs.len() == 0 {
        assert(global_header_spec(link, snaplen) + records_bytes(fs) =~= global_header_spec(link, snaplen));
    } else {
        let init = fs.drop_last();
        assert forall|i: int| 0 <= i < init.len() implies writable(#[trigger] init[i]) by {
            assert(init[i] == fs[i]);
        }
        assert(writable(fs[fs.len() - 1]));
        lemma_capture_ok(init, link, snaplen);
        lemma_records_bytes_push(init, fs.last());
        assert(init.push(fs.last()) =~= fs);
        assert(global_header_spec(link, snaplen) + records_bytes(init) + record_bytes(fs.last().0, fs.last().1)
            =~= global_header_spec(link, snaplen) + records_bytes(fs));
    }
}

/// The record at `pos` of `d` reads back as `frame`.
#[verifier::opaque]
spec fn record_reads(d: Seq<u8>, pos: int, frame: (u64, Seq<u8>)) -> bool {
    &&& record_spec(d, pos, false, false) == (
        Ok::<Option<(RecordHeader, int)>, PcapErrorModel>(Some((written_header(frame), pos + RECORD_HEADER_LEN))),
        pos + RECORD_HEADER_LEN + frame.1.len(),
    )
    &&& d.subrange(pos + RECORD_HEADER_LEN, pos + RECORD_HEADER_LEN + frame.1.len()) == frame.1
}

proof fn lemma_record_reads(before: Seq<u8>, frame: (u64, Seq<u8>), rest: Seq<u8>)
    requires
        writable(frame),
        frame.1.len() <= MAX_RECORD_LEN,
    ensures
        record_reads(before + record_bytes(frame.0, frame.1) + rest, before.len() as int, frame),
{
    reveal(record_reads);
    lemma_record_reads_back(before, frame.0, frame.1, rest);
}

/// One record read back, then the rest.
proof fn lemma_reads_back_step(d: Seq<u8>, pos: int, frames: Seq<(u64, Seq<u8>)>)
    requires
        frames.len() > 0,
        record_reads(d, pos, frames[0]),
        reads_back(d, pos + RECORD_HEADER_LEN + frames[0].1.len(), frames.drop_first()),
    ensures
        reads_back(d, pos, frames),
{
    reveal(reads_back);
    reveal(record_reads);
}

/// Nothing read back at the end of the data.
proof fn lemma_reads_back_end(d: Seq<u8>)
    ensures
        reads_back(d, d.len() as int, Seq::<(u64, Seq<u8>)>::empty()),
{
    reveal(reads_back);
}

proof fn lemma_records_bytes_first(fs: Seq<(u64, Seq<u8>)>)
    requires
        fs.len() > 0,
    ensures
        records_bytes(fs) == record_bytes(fs[0].0, fs[0].1) + records_bytes(fs.drop_first()),
{
}

proof fn lemma_records_read_back(before: Seq<u8>, fs: Seq<(u64, Seq<u8>)>)
    requires
        forall|i: int| 0 <= i < fs.len() ==> writable(#[trigger] fs[i]) && fs[i].1.len() <= MAX_RECORD_LEN,
    ensures
        reads_back(before + records_bytes(fs), before.len() as int, fs),
    decreases fs.len(),
{
    if fs.len() == 0 {
        assert(before + records_bytes(fs) =~= before);
        assert(fs =~= Seq::<(u64, Seq<u8>)>::empty());
        lemma_reads_back_end(before);
    } else {
        let rest = fs.drop_first();
        let r0 = record_bytes(fs[0].0, fs[0].1);
        let d = before + records_bytes(fs);
        assert(writable(fs[0]) && fs[0].1.len() <= MAX_RECORD_LEN);
        assert(d == before + r0 + records_bytes(rest)) by {
            lemma_records_bytes_first(fs);
            assert(before + (r0 + records_bytes(rest)) =~= before + r0 + records_bytes(rest));
        }
        lemma_record_reads(before, fs[0], records_bytes(rest));
        assert forall|i: int| 0 <= i < rest.len() implies writable(#[trigger] rest[i]) && rest[i].1.len()
            <= MAX_RECORD_LEN by {
            assert(rest[i] == fs[i + 1]);
            assert(writable(fs[i + 1]));
        }
        let before2 = before + r0;
        lemma_records_read_back(before2, rest);
        assert(before2 + records_bytes(rest) == d);
        assert(before2.len() == before.len() + RECORD_HEADER_LEN + fs[0].1.len());
        lemma_reads_back_step(d, before.len() as int, fs);
    }
}

proof fn lemma_header_len(link: LinkType, snaplen: u32)
    ensures
        global_header_spec(link, snaplen).len() == GLOBAL_HEADER_LEN,
{
}

/// A capture that was written reads back whole: its header gives the link
/// type, in the file's own byte order and with microseconds, and its
/// records give the frames, in order, then the end of the capture. This
/// holds for frames of at most `MAX_RECORD_LEN` bytes, the most that is
/// read, at times that 32-bit seconds hold, the ones that are written.
pub proof fn lemma_capture_reads_back(frames: Seq<(u64, Seq<u8>)>, link: LinkType, snaplen: u32)
    requires
        forall|i: int| 0 <= i < frames.len() ==> writable(#[trigger] frames[i]) && frames[i].1.len() <= MAX_RECORD_LEN,
    ensures
        capture_spec(frames, link, snaplen) matches Ok(b) && global_spec(b) == Ok::<(LinkType, bool, bool), PcapErrorModel>(
            (link, false, false),
        ) && reads_back(b, GLOBAL_HEADER_LEN as int, frames),
{
    let h = global_header_spec(link, snaplen);
    let b = h + records_bytes(frames);
    lemma_capture_ok(frames, link, snaplen);
    lemma_header_reads_back(link, snaplen, records_bytes(frames));
    lemma_records_read_back(h, frames);
    lemma_header_len(link, snaplen);
    assert(capture_spec(frames, link, snaplen) == Ok::<Seq<u8>, PcapErrorModel>(b));
    assert(global_spec(b) == Ok::<(LinkType, bool, bool), PcapErrorModel>((link, false, false)));
    assert(reads_back(b, GLOBAL_HEADER_LEN as int, frames));
}

/// Records written one by one read back unchanged: a writer that started
/// on an empty vector holds a capture whose header gives its link type, in
/// the file's own byte order and with microseconds, and whose records give
/// the frames written, in order, then the end of the capture. This holds for
/// frames of at most `MAX_RECORD_LEN` bytes, the most that is read.
pub proof fn lemma_writer_reads_back(w: PcapWriter)
    requires
        w.wf(),
        w.start() == Seq::<u8>::empty(),
        forall|i: int| 0 <= i < w.frames().len() ==> (#[trigger] w.frames()[i]).1.len() <= MAX_RECORD_LEN,
    ensures
        global_spec(w.bytes()) == Ok::<(LinkType, bool, bool), PcapErrorModel>((w.link_spec(), false, false)),
        reads_back(w.bytes(), GLOBAL_HEADER_LEN as int, w.frames()),
{
    let h = global_header_spec(w.link_spec(), w.snaplen_spec());
    let fs = w.frames();
    assert(w.bytes() =~= h + records_bytes(fs));
    assert forall|i: int| 0 <= i < fs.len() implies writable(#[trigger] fs[i]) && fs[i].1.len() <= MAX_RECORD_LEN by {}
    lemma_header_reads_back(w.link_spec(), w.snaplen_spec(), records_bytes(fs));
    lemma_records_read_back(h, fs);
    lemma_header_len(w.link_spec(), w.snaplen_spec());
}

fn push_le32(v: &mut Vec<u8>, x: u32)
    ensures
        final(v)@ == old(v)@ + le_bytes32(x),
{
    v.push((x % 0x100) as u8);
    v.push(((x / 0x100) % 0x100) as u8);
    v.push(((x / 0x1_0000) % 0x100) as u8);
    v.push((x / 0x100_0000) as u8);
    assert(final(v)@ =~= old(v)@ + le_bytes32(x)) by {
        assert(v@ =~= old(v)@ + le_bytes32(x));
    }
}

fn push_le16(v: &mut Vec<u8>, x: u16)
    ensures
        final(v)@ == old(v)@ + le_bytes16(x),
{
    v.push((x % 0x100) as u8);
    v.push((x / 0x100) as u8);
    assert(v@ =~= old(v)@ + le_bytes16(x));
}

/// Writes a capture into a byte vector.
/// A capture of `frames` (times and data) with link type `link` and
/// snapshot length `snaplen`: the global header and each frame's record, or
/// the error of the first frame that cannot be written (see
/// `PcapWriter::write_record`).
pub open spec fn capture_spec(frames: Seq<(u64, Seq<u8>)>, link: LinkType, snaplen: u32) -> Result<
    Seq<u8>,
    PcapErrorModel,
>
    decreases frames.len(),
{
    if frames.len() == 0 {
        Ok(global_header_spec(link, snaplen))
    } else {
        match capture_spec(frames.drop_last(), link, snaplen) {
            Err(e) => Err(e),
            Ok(b) => {
                let (ts_us, data) = frames.last();
                if data.len() > u32::MAX {
                    Err(PcapErrorModel::Io(IoErrorKind::InvalidInput, "record too large"@))
                } else if ts_us / MICROS_PER_SEC > u32::MAX {
                    Err(PcapErrorModel::Io(IoErrorKind::InvalidInput, "timestamp past 2106"@))
                } else {
                    Ok(b + record_bytes(ts_us, data))
                }
            },
        }
    }
}

pub open spec fn frame_views(frames: Seq<(u64, Vec<u8>)>) -> Seq<(u64, Seq<u8>)> {
    frames.map_values(|f: (u64, Vec<u8>)| (f.0, f.1@))
}

/// The bytes of a capture of `frames` (see `capture_spec`).
pub fn write_capture(frames: &Vec<(u64, Vec<u8>)>, link: LinkType, snaplen: u32) -> (r: Result<Vec<u8>, PcapError>)
    ensures
        match capture_spec(frame_views(frames@), link, snaplen) {
            Ok(b) => r matches Ok(v) && v@ == b,
            Err(e) => r matches Err(x) && x@ == e,
        },
{
    let ghost fs = frame_views(frames@);
    let mut w = match PcapWriter::new(Vec::new(), link, snaplen) {
        Ok(w) => w,
        Err(e) => return Err(e),
    };
    assert(w.bytes() =~= global_header_spec(link, snaplen));
    let mut i: usize = 0;
    while i < frames.len()
        invariant
            i <= frames@.len(),
            fs == frame_views(frames@),
            w.wf(),
            capture_spec(fs.take(i as int), link, snaplen) == Ok::<Seq<u8>, PcapErrorModel>(w.bytes()),
        decreases frames@.len() - i,
    {
        let ghost before = fs.take(i as int);
        assert(fs.take(i + 1).drop_last() =~= before);
        assert(fs.take(i + 1).last() == (frames@[i as int].0, frames@[i as int].1@));
        match w.write_record(frames[i].0, frames[i].1.as_slice()) {
            Ok(()) => {},
            Err(e) => {
                proof {
                    lemma_capture_err(fs, i as int + 1, link, snaplen);
                }
                return Err(e);
            },
        }
        i += 1;
    }
    assert(fs.take(i as int) =~= fs);
    Ok(w.into_inner())
}

/// A capture that fails at some frame fails with all the frames after it.
proof fn lemma_capture_err(fs: Seq<(u64, Seq<u8>)>, k: int, link: LinkType, snaplen: u32)
    requires
        0 <= k <= fs.len(),
        capture_spec(fs.take(k), link, snaplen) is Err,
    ensures
        capture_spec(fs, link, snaplen) == capture_spec(fs.take(k), link, snaplen),
    decreases fs.len() - k,
{
    if k < fs.len() {
        assert(fs.take(k + 1).drop_last() =~= fs.take(k));
        lemma_capture_err(fs, k + 1, link, snaplen);
    } else {
        assert(fs.take(k) =~= fs);
    }
}

pub struct PcapWriter {
    inner: Vec<u8>,
    start: Ghost<Seq<u8>>,
    link: Ghost<LinkType>,
    snaplen: Ghost<u32>,
    written: Ghost<Seq<(u64, Seq<u8>)>>,
}

impl PcapWriter {
    /// The bytes written so far (after what the vector held).
    pub closed spec fn bytes(&self) -> Seq<u8> {
        self.inner@
    }

    /// What the vector held before the writer was made.
    pub closed spec fn start(&self) -> Seq<u8> {
        self.start@
    }

    /// The link type the writer was made with.
    pub closed spec fn link_spec(&self) -> LinkType {
        self.link@
    }

    /// The snapshot length the writer was made with.
    pub closed spec fn snaplen_spec(&self) -> u32 {
        self.snaplen@
    }

    /// The frames written so far (times and data), in order.
    pub closed spec fn frames(&self) -> Seq<(u64, Seq<u8>)> {
        self.written@
    }

    /// The bytes are what the vector held, the global header and a record
    /// for each frame written, in order.
    pub closed spec fn wf(&self) -> bool {
        &&& self.inner@ == self.start@ + global_header_spec(self.link@, self.snaplen@) + records_bytes(self.written@)
        &&& forall|i: int| 0 <= i < self.written@.len() ==> writable(#[trigger] self.written@[i])
    }

    /// A writer that appends to `inner`, starting with the global header.
    pub fn new(inner: Vec<u8>, link: LinkType, snaplen: u32) -> (r: Result<Self, PcapError>)
        ensures
            r matches Ok(w) && w.bytes() == inner@ + global_header_spec(link, snaplen) && w.wf() && w.start()
                == inner@ && w.link_spec() == link && w.snaplen_spec() == snaplen && w.frames() == Seq::<
                (u64, Seq<u8>),
            >::empty(),
    {
        let mut inner = inner;
        let ghost start = inner@;
        push_le32(&mut inner, MAGIC_MICROS);
        push_le16(&mut inner, VERSION_MAJOR);
        push_le16(&mut inner, VERSION_MINOR);
        push_le32(&mut inner, 0);
        push_le32(&mut inner, 0);
        push_le32(&mut inner, snaplen);
        push_le32(&mut inner, link.raw());
        assert(inner@ =~= start + global_header_spec(link, snaplen));
        let w = PcapWriter {
            inner,
            start: Ghost(start),
            link: Ghost(link),
            snaplen: Ghost(snaplen),
            written: Ghost(Seq::empty()),
        };
        assert(records_bytes(Seq::<(u64, Seq<u8>)>::empty()) == Seq::<u8>::empty());
        assert(w.inner@ =~= start + global_header_spec(link, snaplen) + records_bytes(Seq::<(u64, Seq<u8>)>::empty()));
        Ok(w)
    }

    /// Appends a record. Fails, writing nothing, when the data is longer
    /// than `u32::MAX` bytes or the time is past what 32-bit seconds hold.
    pub fn write_record(&mut self, ts_us: u64, data: &[u8]) -> (r: Result<(), PcapError>)
        requires
            old(self).wf(),
        ensures
            final(self).wf(),
            final(self).start() == old(self).start(),
            final(self).link_spec() == old(self).link_spec(),
            final(self).snaplen_spec() == old(self).snaplen_spec(),
            r is Ok ==> final(self).frames() == old(self).frames().push((ts_us, data@)),
            r is Err ==> final(self).frames() == old(self).frames(),
            data@.len() > u32::MAX ==> (r matches Err(PcapError::Io(k, m)) && k == IoErrorKind::InvalidInput && m@ == "record too large"@),
            data@.len() > u32::MAX ==> final(self).bytes() == old(self).bytes(),
            data@.len() <= u32::MAX && ts_us / MICROS_PER_SEC > u32::MAX ==> (r matches Err(PcapError::Io(k, m)) && k == IoErrorKind::InvalidInput && m@
                == "timestamp past 2106"@),
            data@.len() <= u32::MAX && ts_us / MICROS_PER_SEC > u32::MAX ==> final(self).bytes() == old(self).bytes(),
            data@.len() <= u32::MAX && ts_us / MICROS_PER_SEC <= u32::MAX ==> r is Ok && final(self).bytes() == old(
                self,
            ).bytes() + record_bytes(ts_us, data@),
    {
        if data.len() > 0xFFFF_FFFF {
            return Err(PcapError::Io(IoErrorKind::InvalidInput, "record too large".to_owned()));
        }
        let len = data.len() as u32;
        if ts_us / MICROS_PER_SEC > 0xFFFF_FFFF {
            return Err(PcapError::Io(IoErrorKind::InvalidInput, "timestamp past 2106".to_owned()));
        }
        let sec = (ts_us / MICROS_PER_SEC) as u32;
        let usec = (ts_us % MICROS_PER_SEC) as u32;
        let ghost start = self.inner@;
        push_le32(&mut self.inner, sec);
        push_le32(&mut self.inner, usec);
        push_le32(&mut self.inner, len);
        push_le32(&mut self.inner, len);
        let mut i: usize = 0;
        while i < data.len()
            invariant
                i <= data@.len(),
                data@.len() <= u32::MAX,
                len == data@.len(),
                sec == ts_us / MICROS_PER_SEC,
                usec == ts_us % MICROS_PER_SEC,
                self.inner@ == start + le_bytes32(sec) + le_bytes32(usec) + le_bytes32(len) + le_bytes32(len)
                    + data@.take(i as int),
                self.start@ == old(self).start@,
                self.link@ == old(self).link@,
                self.snaplen@ == old(self).snaplen@,
                self.written@ == old(self).written@,
            decreases data@.len() - i,
        {
            self.inner.push(data[i]);
            assert(data@.take(i as int + 1) =~= data@.take(i as int).push(data@[i as int]));
            i += 1;
        }
        assert(data@.take(i as int) =~= data@);
        assert(self.inner@ =~= start + record_bytes(ts_us, data@));
        proof {
            let old_frames = self.written@;
            lemma_records_bytes_push(old_frames, (ts_us, data@));
            self.written = Ghost(old_frames.push((ts_us, data@)));
            assert(self.inner@ =~= self.start@ + global_header_spec(self.link@, self.snaplen@) + records_bytes(
                self.written@,
            ));
            assert forall|j: int| 0 <= j < self.written@.len() implies writable(#[trigger] self.written@[j]) by {
                if j < old_frames.len() {
                    assert(self.written@[j] == old_frames[j]);
                }
            }
        }
        Ok(())
    }

    /// The bytes: what the vector held, then everything written.
    pub fn into_inner(self) -> (v: Vec<u8>)
        ensures
            v@ == self.bytes(),
    {
        self.inner
    }
}

} // verus!
