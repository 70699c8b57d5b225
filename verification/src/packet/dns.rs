use vstd::prelude::*;

use super::{be16, be16_spec, need, truncated_spec};
use crate::error::{Layer, ParseError};
use crate::text::push_char;

verus! {

pub const PORT: u16 = 53;
pub const HEADER_LEN: usize = 12;
pub const MAX_NAME_LEN: usize = 253;
pub const MAX_POINTER_JUMPS: u8 = 16;

/// The first question of a DNS message.
#[derive(Debug, Clone, PartialEq, Eq)]
pub struct DnsQuestion {
    pub name: String,
    pub qtype: u16,
}

/// The header of a DNS message and its first question, if it has one.
#[derive(Debug, Clone, PartialEq, Eq)]
pub struct DnsInfo {
    pub id: u16,
    pub is_response: bool,
    pub opcode: u8,
    pub rcode: u8,
    pub question_count: u16,
    pub answer_count: u16,
    pub question: Option<DnsQuestion>,
}

/// A DNS message as mathematical values.
pub struct DnsModel {
    pub id: u16,
    pub is_response: bool,
    pub opcode: u8,
    pub rcode: u8,
    pub question_count: u16,
    pub answer_count: u16,
    pub question: Option<(Seq<char>, u16)>,
}

impl View for DnsQuestion {
    type V = (Seq<char>, u16);

    open spec fn view(&self) -> (Seq<char>, u16) {
        (self.name@, self.qtype)
    }
}

impl View for DnsInfo {
    type V = DnsModel;

    open spec fn view(&self) -> DnsModel {
        DnsModel {
            id: self.id,
            is_response: self.is_response,
            opcode: self.opcode,
            rcode: self.rcode,
            question_count: self.question_count,
            answer_count: self.answer_count,
            question: match self.question {
                Some(q) => Some(q@),
                None => None,
            },
        }
    }
}

pub open spec fn malformed_dns(reason: &'static str) -> ParseError {
    ParseError::Malformed { layer: Layer::Dns, reason }
}

fn malformed(reason: &'static str) -> (e: ParseError)
    ensures
        e == malformed_dns(reason),
{
    ParseError::Malformed { layer: Layer::Dns, reason }
}

fn truncated(needed: usize, available: usize) -> (e: ParseError)
    ensures
        e == (ParseError::Truncated { layer: Layer::Dns, needed, available }),
{
    ParseError::Truncated { layer: Layer::Dns, needed, available }
}

/// How a name byte is shown: printable ASCII in lower case, anything else
/// as `?`.
pub open spec fn shown_char(b: u8) -> char {
    if 0x41 <= b <= 0x5A {
        (b + 32) as char
    } else if 0x21 <= b <= 0x7E {
        b as char
    } else {
        '?'
    }
}

pub open spec fn shown_label(label: Seq<u8>) -> Seq<char> {
    label.map_values(|b: u8| shown_char(b))
}

/// `name` with the label `label` appended, separated by a dot.
pub open spec fn append_label(name: Seq<char>, label: Seq<u8>) -> Seq<char> {
    if name.len() == 0 {
        shown_label(label)
    } else {
        name.push('.') + shown_label(label)
    }
}

/// Reads a (possibly compressed) domain name: from position `pos`, with the
/// name read so far, the position after the first compression pointer (if
/// one was followed) and the number of pointers followed so far. Gives the
/// name and the position after it in the message.
pub open spec fn name_walk(msg: Seq<u8>, pos: int, name: Seq<char>, resume: Option<int>, jumps: int) -> Result<
    (Seq<char>, int),
    ParseError,
>
    decreases MAX_POINTER_JUMPS + 1 - jumps, msg.len() - pos,
{
    if pos < 0 || pos >= msg.len() {
        Err(truncated_spec(Layer::Dns, pos + 1, msg.len() as int))
    } else {
        let b = msg[pos];
        if b == 0 {
            Ok(
                (
                    name,
                    match resume {
                        Some(r) => r,
                        None => pos + 1,
                    },
                ),
            )
        } else if b < 64 {
            let len = b as int;
            if pos + 1 + len > msg.len() {
                Err(truncated_spec(Layer::Dns, pos + 1 + len, msg.len() as int))
            } else {
                let name2 = append_label(name, msg.subrange(pos + 1, pos + 1 + len));
                if name2.len() > MAX_NAME_LEN {
                    Err(malformed_dns("name longer than 253"))
                } else {
                    name_walk(msg, pos + 1 + len, name2, resume, jumps)
                }
            }
        } else if b >= 192 {
            if pos + 1 >= msg.len() {
                Err(truncated_spec(Layer::Dns, pos + 2, msg.len() as int))
            } else if jumps + 1 > MAX_POINTER_JUMPS {
                Err(malformed_dns("compression pointer loop"))
            } else {
                let target = (b - 192) as int * 256 + msg[pos + 1] as int;
                let resume2 = match resume {
                    Some(r) => Some(r),
                    None => Some(pos + 2),
                };
                name_walk(msg, target, name, resume2, jumps + 1)
            }
        } else {
            Err(malformed_dns("reserved label type"))
        }
    }
}

/// What a DNS message decodes to: its header fields and, if it declares at
/// least one question, the name and type of the first one.
pub open spec fn dns_spec(msg: Seq<u8>) -> Result<DnsModel, ParseError> {
    if msg.len() < HEADER_LEN {
        Err(truncated_spec(Layer::Dns, HEADER_LEN as int, msg.len() as int))
    } else {
        let qd = be16_spec(msg, 4);
        let info = DnsModel {
            id: be16_spec(msg, 0),
            is_response: msg[2] >= 128,
            opcode: ((msg[2] / 8) % 16) as u8,
            rcode: msg[3] % 16,
            question_count: qd,
            answer_count: be16_spec(msg, 6),
            question: None,
        };
        if qd == 0 {
            Ok(info)
        } else {
            match name_walk(msg, HEADER_LEN as int, Seq::empty(), None, 0) {
                Err(e) => Err(e),
                Ok((name, end)) => if msg.len() < end + 2 {
                    Err(truncated_spec(Layer::Dns, end + 2, msg.len() as int))
                } else {
                    Ok(DnsModel { question: Some((name, be16_spec(msg, end))), ..info })
                },
            }
        }
    }
}

/// Decodes the header of a DNS message and its first question.
pub fn parse(msg: &[u8]) -> (r: Result<DnsInfo, ParseError>)
    requires
        msg@.len() + 0x1_0000 <= usize::MAX,
    ensures
        match dns_spec(msg@) {
            Ok(m) => r matches Ok(info) && info@ == m,
            Err(e) => r matches Err(e2) && e2 == e,
        },
{
    need(msg, HEADER_LEN, Layer::Dns)?;
    let question_count = be16(msg, 4);
    let question = if question_count == 0 {
        None
    } else {
        proof {
            lemma_name_walk_end(msg@, HEADER_LEN as int, Seq::empty(), None, 0);
        }
        let (name, end) = read_name(msg, HEADER_LEN)?;
        need(msg, end + 2, Layer::Dns)?;
        Some(DnsQuestion { name, qtype: be16(msg, end) })
    };
    Ok(
        DnsInfo {
            id: be16(msg, 0),
            is_response: msg[2] >= 128,
            opcode: (msg[2] / 8) % 16,
            rcode: msg[3] % 16,
            question_count,
            answer_count: be16(msg, 6),
            question,
        },
    )
}

/// The header fields of a decoded message come from its first four bytes:
/// the id is bytes 0-1 read big-endian, the message is a response exactly
/// when the top bit of byte 2 is set, the opcode is bits 3-6 of byte 2, and
/// the rcode is the low four bits of byte 3. The counts are bytes 4-5 and
/// 6-7, big-endian. A message of at least twelve bytes that declares no
/// question always decodes.
pub proof fn lemma_header_fields(msg: Seq<u8>)
    ensures
        dns_spec(msg) matches Ok(m) ==> {
            &&& m.id as int == msg[0] as int * 256 + msg[1] as int
            &&& m.is_response == (msg[2] & 0x80 != 0)
            &&& m.opcode == (msg[2] >> 3) & 0x0F
            &&& m.rcode == msg[3] & 0x0F
            &&& m.question_count as int == msg[4] as int * 256 + msg[5] as int
            &&& m.answer_count as int == msg[6] as int * 256 + msg[7] as int
        },
        msg.len() >= HEADER_LEN && msg[4] == 0 && msg[5] == 0 ==> dns_spec(msg) is Ok,
{
    if msg.len() >= HEADER_LEN {
        let b2 = msg[2];
        let b3 = msg[3];
        assert(b3 % 16 == b3 & 0x0F) by (bit_vector);
        assert((b2 >= 128) == (b2 & 0x80 != 0)) by (bit_vector);
        assert((b2 / 8) % 16 == (b2 >> 3) & 0x0F) by (bit_vector);
    }
}

/// A character that a decoded name may hold: printable ASCII other than an
/// upper-case letter.
pub open spec fn name_char_ok(c: char) -> bool {
    &&& 0x21 <= c as u32 <= 0x7E
    &&& !(0x41 <= c as u32 <= 0x5A)
}

/// A name read from `pos` on, starting from a name of acceptable
/// characters and length, is of acceptable characters and length.
proof fn lemma_walk_name_ok(msg: Seq<u8>, pos: int, name: Seq<char>, resume: Option<int>, jumps: int)
    requires
        name.len() <= MAX_NAME_LEN,
        forall|i: int| 0 <= i < name.len() ==> name_char_ok(#[trigger] name[i]),
        jumps <= MAX_POINTER_JUMPS,
    ensures
        name_walk(msg, pos, name, resume, jumps) matches Ok((n, _)) ==> {
            &&& n.len() <= MAX_NAME_LEN
            &&& forall|i: int| 0 <= i < n.len() ==> name_char_ok(#[trigger] n[i])
        },
    decreases MAX_POINTER_JUMPS + 1 - jumps, msg.len() - pos,
{
    if 0 <= pos < msg.len() {
        let b = msg[pos];
        if b != 0 && b < 64 {
            let len = b as int;
            if pos + 1 + len <= msg.len() {
                let label = msg.subrange(pos + 1, pos + 1 + len);
                let name2 = append_label(name, label);
                if name2.len() <= MAX_NAME_LEN {
                    assert forall|i: int| 0 <= i < name2.len() implies name_char_ok(#[trigger] name2[i]) by {
                        let shown = shown_label(label);
                        if name.len() == 0 {
                            assert(name2[i] == shown_char(label[i]));
                        } else if i < name.len() {
                            assert(name2[i] == name[i]);
                        } else if i > name.len() {
                            assert(name2[i] == shown_char(label[i - name.len() - 1]));
                        } else {
                            assert(name2[i] == '.');
                        }
                    }
                    lemma_walk_name_ok(msg, pos + 1 + len, name2, resume, jumps);
                }
            }
        } else if b >= 192 {
            if pos + 1 < msg.len() && jumps + 1 <= MAX_POINTER_JUMPS {
                let target = (b - 192) as int * 256 + msg[pos + 1] as int;
                let resume2 = match resume {
                    Some(r) => Some(r),
                    None => Some(pos + 2),
                };
                lemma_walk_name_ok(msg, target, name, resume2, jumps + 1);
            }
        }
    }
}

/// A decoded message has a question exactly when its question count
/// (bytes 4-5) is not zero. The question's name is at most 253 characters
/// long and holds printable ASCII only, with letters in lower case: the
/// name is shown case-folded, whatever case the message wrote it in.
pub proof fn lemma_question_name(msg: Seq<u8>)
    ensures
        dns_spec(msg) matches Ok(m) ==> {
            &&& m.question is Some <==> m.question_count != 0
            &&& m.question matches Some((n, _)) ==> {
                &&& n.len() <= MAX_NAME_LEN
                &&& forall|i: int| 0 <= i < n.len() ==> name_char_ok(#[trigger] n[i])
            }
        },
{
    lemma_walk_name_ok(msg, HEADER_LEN as int, Seq::empty(), None, 0);
}

/// Facts about positions that a name walk reaches: results lie inside the
/// message.
proof fn lemma_name_walk_end(msg: Seq<u8>, pos: int, name: Seq<char>, resume: Option<int>, jumps: int)
    requires
        resume matches Some(r) ==> 0 <= r <= msg.len(),
        jumps <= MAX_POINTER_JUMPS,
    ensures
        name_walk(msg, pos, name, resume, jumps) matches Ok((_, end)) ==> 0 <= end <= msg.len(),
    decreases MAX_POINTER_JUMPS + 1 - jumps, msg.len() - pos,
{
    if 0 <= pos < msg.len() {
        let b = msg[pos];
        if b != 0 && b < 64 {
            let len = b as int;
            if pos + 1 + len <= msg.len() {
                let name2 = append_label(name, msg.subrange(pos + 1, pos + 1 + len));
                lemma_name_walk_end(msg, pos + 1 + len, name2, resume, jumps);
            }
        } else if b >= 192 {
            if pos + 1 < msg.len() && jumps + 1 <= MAX_POINTER_JUMPS {
                let target = (b - 192) as int * 256 + msg[pos + 1] as int;
                let resume2 = match resume {
                    Some(r) => Some(r),
                    None => Some(pos + 2),
                };
                lemma_name_walk_end(msg, target, name, resume2, jumps + 1);
            }
        }
    }
}

/// How a name byte is shown (see `shown_char`).
fn printable_lower(b: u8) -> (c: char)
    ensures
        c == shown_char(b),
{
    if b >= 0x41 && b <= 0x5A {
        (b + 32) as char
    } else if b >= 0x21 && b <= 0x7E {
        b as char
    } else {
        '?'
    }
}

/// Reads the domain name at `start`, following at most sixteen compression
/// pointers, and returns it with the position after it (after the first
/// pointer, if one was followed).
fn read_name(msg: &[u8], start: usize) -> (r: Result<(String, usize), ParseError>)
    requires
        start <= msg@.len(),
        msg@.len() + 0x1_0000 <= usize::MAX,
    ensures
        match name_walk(msg@, start as int, Seq::empty(), None, 0) {
            Ok((name, end)) => r matches Ok((n, e)) && n@ == name && e == end,
            Err(err) => r matches Err(e2) && e2 == err,
        },
{
    let mut name = String::new();
    let mut name_len: usize = 0;
    let mut pos = start;
    let mut resume_at: Option<usize> = None;
    let mut jumps: u8 = 0;
    let ghost goal = name_walk(msg@, start as int, Seq::empty(), None, 0);
    proof {
        lemma_name_walk_end(msg@, start as int, Seq::empty(), None, 0);
    }
    loop
        invariant
            jumps <= MAX_POINTER_JUMPS,
            name@.len() <= MAX_NAME_LEN,
            name_len == name@.len(),
            resume_at matches Some(r) ==> r <= msg@.len(),
            pos <= 0xFFFF || pos <= msg@.len(),
            start <= msg@.len(),
            msg@.len() + 0x1_0000 <= usize::MAX,
            goal == name_walk(msg@, start as int, Seq::empty(), None, 0),
            goal matches Ok((_, end)) ==> 0 <= end <= msg@.len(),
            name_walk(
                msg@,
                pos as int,
                name@,
                match resume_at {
                    Some(r) => Some(r as int),
                    None => None,
                },
                jumps as int,
            ) == goal,
        decreases MAX_POINTER_JUMPS + 1 - jumps, msg@.len() - pos,
    {
        if pos >= msg.len() {
            return Err(truncated(pos + 1, msg.len()));
        }
        let len_byte = msg[pos];
        if len_byte == 0 {
            let end = match resume_at {
                Some(r) => r,
                None => pos + 1,
            };
            return Ok((name, end));
        } else if len_byte < 64 {
            let len = len_byte as usize;
            if pos + 1 + len > msg.len() {
                return Err(truncated(pos + 1 + len, msg.len()));
            }
            let ghost before = name@;
            let ghost label = msg@.subrange(pos + 1, pos + 1 + len);
            if name_len != 0 {
                push_char(&mut name, '.');
                name_len += 1;
            }
            let ghost base = name@;
            let mut k: usize = 0;
            while k < len
                invariant
                    k <= len,
                    len < 64,
                    msg@.len() + 0x1_0000 <= usize::MAX,
                    pos + 1 + len <= msg@.len(),
                    label == msg@.subrange(pos + 1, pos + 1 + len),
                    name@ == base + shown_label(label.subrange(0, k as int)),
                    name_len == name@.len(),
                    name_len <= MAX_NAME_LEN + 1 + k,
                decreases len - k,
            {
                let c = printable_lower(msg[pos + 1 + k]);
                push_char(&mut name, c);
                name_len += 1;
                k += 1;
                assert(shown_label(label.subrange(0, k as int)) =~= shown_label(
                    label.subrange(0, k - 1),
                ).push(c));
            }
            assert(label.subrange(0, len as int) =~= label);
            assert(name@ =~= append_label(before, label));
            if name_len > MAX_NAME_LEN {
                return Err(malformed("name longer than 253"));
            }
            pos += 1 + len;
        } else if len_byte >= 192 {
            if pos + 1 >= msg.len() {
                return Err(truncated(pos + 2, msg.len()));
            }
            let low = msg[pos + 1];
            if resume_at.is_none() {
                resume_at = Some(pos + 2);
            }
            if jumps + 1 > MAX_POINTER_JUMPS {
                return Err(malformed("compression pointer loop"));
            }
            jumps += 1;
            pos = (len_byte - 192) as usize * 256 + low as usize;
        } else {
            return Err(malformed("reserved label type"));
        }
    }
}

} // verus!
