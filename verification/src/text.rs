use vstd::prelude::*;

use crate::addr::IpAddr;
use vstd::string::StringExecFns;

verus! {

/// Appends `c` to `s` (std's `String::push`).
#[verifier::external_body]
pub(crate) fn push_char(s: &mut String, c: char)
    ensures
        final(s)@ == old(s)@.push(c),
{
    s.push(c)
}

/// Appends `t` to `s`.
pub(crate) fn push_str(s: &mut String, t: &str)
    ensures
        final(s)@ == old(s)@ + t@,
{
    s.append(t);
}

pub open spec fn digit_spec(d: nat) -> char {
    ((d % 10) + 48) as char
}

/// The decimal digits of `n`, without leading zeros (`0` for zero).
pub open spec fn decimal_spec(n: nat) -> Seq<char>
    decreases n,
{
    if n < 10 {
        seq![digit_spec(n)]
    } else {
        decimal_spec(n / 10).push(digit_spec(n % 10))
    }
}

/// Appends the decimal digits of `n` to `s`.
pub fn push_decimal(s: &mut String, n: u64)
    ensures
        final(s)@ == old(s)@ + decimal_spec(n as nat),
    decreases n,
{
    if n >= 10 {
        push_decimal(s, n / 10);
    }
    let d = (n % 10) as u8 + 48;
    push_char(s, d as char);
    proof {
        if n >= 10 {
            assert(decimal_spec(n as nat) == decimal_spec((n / 10) as nat).push(digit_spec((n % 10) as nat)));
        }
    }
    assert(final(s)@ =~= old(s)@ + decimal_spec(n as nat));
}

/// The decimal text of `n`.
pub fn decimal(n: u64) -> (s: String)
    ensures
        s@ == decimal_spec(n as nat),
{
    let mut s = String::new();
    push_decimal(&mut s, n);
    assert(s@ =~= decimal_spec(n as nat));
    s
}

/// Dotted-decimal text of an IPv4 address.
pub open spec fn ipv4_text_spec(bits: u32) -> Seq<char> {
    decimal_spec(bits as nat / 0x100_0000) + seq!['.'] + decimal_spec((bits as nat / 0x1_0000) % 256)
        + seq!['.'] + decimal_spec((bits as nat / 0x100) % 256) + seq!['.'] + decimal_spec(
        bits as nat % 256,
    )
}

/// The eight 16-bit groups of an IPv6 address, most significant first.
pub open spec fn group_spec(bits: u128, i: int) -> u16 {
    (bits >> ((7 - i) * 16) as u128) as u16
}

pub open spec fn hex_digit_spec(d: nat) -> char {
    if d < 10 { (d + 48) as char } else { (d - 10 + 97) as char }
}

/// Lower-case hexadecimal digits of `n`, without leading zeros.
pub open spec fn hex_spec(n: nat) -> Seq<char>
    decreases n,
{
    if n < 16 {
        seq![hex_digit_spec(n)]
    } else {
        hex_spec(n / 16).push(hex_digit_spec(n % 16))
    }
}

/// The groups `from..to` in hexadecimal, separated by colons.
pub open spec fn groups_text(bits: u128, from: int, to: int) -> Seq<char>
    decreases to - from,
{
    if to <= from {
        Seq::empty()
    } else if to == from + 1 {
        hex_spec(group_spec(bits, from) as nat)
    } else {
        groups_text(bits, from, to - 1) + seq![':'] + hex_spec(group_spec(bits, to - 1) as nat)
    }
}

/// The longest run of zero groups (the first one among equally long runs),
/// as (start, length), scanning from group `i` with the current run
/// `(cs, cl)` and the best so far `(bs, bl)`.
pub open spec fn zero_run(bits: u128, i: int, cs: int, cl: int, bs: int, bl: int) -> (int, int)
    decreases 8 - i,
{
    if i >= 8 {
        (bs, bl)
    } else if group_spec(bits, i) == 0 {
        let ncs = if cl == 0 { i } else { cs };
        let ncl = cl + 1;
        if ncl > bl {
            zero_run(bits, i + 1, ncs, ncl, ncs, ncl)
        } else {
            zero_run(bits, i + 1, ncs, ncl, bs, bl)
        }
    } else {
        zero_run(bits, i + 1, 0, 0, bs, bl)
    }
}

/// An IPv4-mapped address: `::ffff:a.b.c.d`.
pub open spec fn is_v4_mapped(bits: u128) -> bool {
    bits >> 32u128 == 0xffffu128
}

/// The text of an IPv6 address as std writes it: `::ffff:` and dotted
/// decimal for an IPv4-mapped address; otherwise the hexadecimal groups
/// separated by colons, with the longest run of two or more zero groups
/// written as `::`.
pub open spec fn ipv6_text_spec(bits: u128) -> Seq<char> {
    if is_v4_mapped(bits) {
        seq![':', ':', 'f', 'f', 'f', 'f', ':'] + ipv4_text_spec(bits as u32)
    } else {
        let (start, len) = zero_run(bits, 0, 0, 0, 0, 0);
        if len > 1 {
            groups_text(bits, 0, start) + seq![':', ':'] + groups_text(bits, start + len, 8)
        } else {
            groups_text(bits, 0, 8)
        }
    }
}

proof fn lemma_zero_run_bounds(bits: u128, i: int, cs: int, cl: int, bs: int, bl: int)
    requires
        0 <= i <= 8,
        0 <= bs,
        0 <= bl,
        bs + bl <= i,
        0 <= cl,
        cs + cl == i || cl == 0,
        0 <= cs,
    ensures
        ({
            let (s, l) = zero_run(bits, i, cs, cl, bs, bl);
            0 <= s && 0 <= l && s + l <= 8
        }),
    decreases 8 - i,
{
    if i < 8 {
        if group_spec(bits, i) == 0 {
            let ncs = if cl == 0 { i } else { cs };
            let ncl = cl + 1;
            if ncl > bl {
                lemma_zero_run_bounds(bits, i + 1, ncs, ncl, ncs, ncl);
            } else {
                lemma_zero_run_bounds(bits, i + 1, ncs, ncl, bs, bl);
            }
        } else {
            lemma_zero_run_bounds(bits, i + 1, 0, 0, bs, bl);
        }
    }
}

fn push_hex(s: &mut String, n: u16)
    ensures
        final(s)@ == old(s)@ + hex_spec(n as nat),
    decreases n,
{
    if n >= 16 {
        push_hex(s, n / 16);
    }
    let d = (n % 16) as u8;
    let c = if d < 10 { (d + 48) as char } else { (d - 10 + 97) as char };
    push_char(s, c);
    proof {
        if n >= 16 {
            assert(hex_spec(n as nat) == hex_spec((n / 16) as nat).push(hex_digit_spec((n % 16) as nat)));
        }
    }
    assert(final(s)@ =~= old(s)@ + hex_spec(n as nat));
}

fn group(bits: u128, i: usize) -> (g: u16)
    requires
        i < 8,
    ensures
        g == group_spec(bits, i as int),
{
    (bits >> ((7 - i) * 16) as u128) as u16
}

fn push_groups(s: &mut String, bits: u128, from: usize, to: usize)
    requires
        from <= to <= 8,
    ensures
        final(s)@ == old(s)@ + groups_text(bits, from as int, to as int),
{
    let mut i = from;
    while i < to
        invariant
            from <= i <= to <= 8,
            s@ == old(s)@ + groups_text(bits, from as int, i as int),
        decreases to - i,
    {
        if i > from {
            push_char(s, ':');
        }
        push_hex(s, group(bits, i));
        i += 1;
        assert(s@ =~= old(s)@ + groups_text(bits, from as int, i as int));
    }
}

/// Appends the text of the IPv6 address with these bits (see
/// `ipv6_text_spec`).
pub fn push_ipv6(s: &mut String, bits: u128)
    ensures
        final(s)@ == old(s)@ + ipv6_text_spec(bits),
{
    if bits >> 32u128 == 0xffffu128 {
        push_str(s, "::ffff:");
        proof {
            reveal_strlit("::ffff:");
        }
        let low = bits as u32;
        push_decimal(s, (low / 0x100_0000) as u64);
        push_char(s, '.');
        push_decimal(s, ((low / 0x1_0000) % 256) as u64);
        push_char(s, '.');
        push_decimal(s, ((low / 0x100) % 256) as u64);
        push_char(s, '.');
        push_decimal(s, (low % 256) as u64);
        assert(final(s)@ =~= old(s)@ + ipv6_text_spec(bits));
        return;
    }
    let mut cs: usize = 0;
    let mut cl: usize = 0;
    let mut bs: usize = 0;
    let mut bl: usize = 0;
    let mut i: usize = 0;
    while i < 8
        invariant
            i <= 8,
            bs + bl <= i,
            cs + cl == i || cl == 0,
            zero_run(bits, i as int, cs as int, cl as int, bs as int, bl as int) == zero_run(bits, 0, 0, 0, 0, 0),
        decreases 8 - i,
    {
        if group(bits, i) == 0 {
            if cl == 0 {
                cs = i;
            }
            cl += 1;
            if cl > bl {
                bs = cs;
                bl = cl;
            }
        } else {
            cs = 0;
            cl = 0;
        }
        i += 1;
    }
    proof {
        lemma_zero_run_bounds(bits, 0, 0, 0, 0, 0);
    }
    if bl > 1 {
        push_groups(s, bits, 0, bs);
        push_char(s, ':');
        push_char(s, ':');
        push_groups(s, bits, bs + bl, 8);
    } else {
        push_groups(s, bits, 0, 8);
    }
    assert(final(s)@ =~= old(s)@ + ipv6_text_spec(bits));
}

/// The text of an address: dotted decimal for IPv4, std's form for IPv6.
pub open spec fn ip_text_spec(addr: IpAddr) -> Seq<char> {
    match addr {
        IpAddr::V4(b) => ipv4_text_spec(b),
        IpAddr::V6(b) => ipv6_text_spec(b),
    }
}

/// Appends the text of `addr` to `s`.
pub fn push_ip(s: &mut String, addr: IpAddr)
    ensures
        final(s)@ == old(s)@ + ip_text_spec(addr),
{
    match addr {
        IpAddr::V4(b) => {
            push_decimal(s, (b / 0x100_0000) as u64);
            push_char(s, '.');
            push_decimal(s, ((b / 0x1_0000) % 256) as u64);
            push_char(s, '.');
            push_decimal(s, ((b / 0x100) % 256) as u64);
            push_char(s, '.');
            push_decimal(s, (b % 256) as u64);
            assert(final(s)@ =~= old(s)@ + ip_text_spec(addr));
        },
        IpAddr::V6(b) => {
            push_ipv6(s, b);
        },
    }
}

/// The text of `addr`.
pub fn ip_text(addr: IpAddr) -> (s: String)
    ensures
        s@ == ip_text_spec(addr),
{
    let mut s = String::new();
    push_ip(&mut s, addr);
    assert(s@ =~= ip_text_spec(addr));
    s
}

/// Whether two strings are equal, character by character.
pub fn same_text(a: &str, b: &str) -> (r: bool)
    ensures
        r == (a@ == b@),
{
    let n = a.unicode_len();
    if n != b.unicode_len() {
        return false;
    }
    let mut i: usize = 0;
    while i < n
        invariant
            n == a@.len(),
            n == b@.len(),
            i <= n,
            forall|j: int| 0 <= j < i ==> a@[j] == b@[j],
        decreases n - i,
    {
        if a.get_char(i) != b.get_char(i) {
            return false;
        }
        i += 1;
    }
    assert(a@ =~= b@);
    true
}

} // verus!
