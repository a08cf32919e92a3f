//! IP addresses, and the text of an IPv4 address with a port.

use vstd::prelude::*;
use vstd::slice::slice_subrange;

use crate::text;

verus! {

/// An IPv4 address, octet by octet.
#[derive(Clone, Copy, Debug, PartialEq, Eq, Structural)]
pub struct Ipv4Addr(pub u8, pub u8, pub u8, pub u8);

/// An IPv6 address, segment by segment.
#[derive(Clone, Copy, Debug, PartialEq, Eq, Structural)]
pub struct Ipv6Addr(
    pub u16,
    pub u16,
    pub u16,
    pub u16,
    pub u16,
    pub u16,
    pub u16,
    pub u16,
);

/// An address of either family.
#[derive(Clone, Copy, Debug, PartialEq, Eq, Structural)]
pub enum IpAddr {
    V4(Ipv4Addr),
    V6(Ipv6Addr),
}

impl Ipv4Addr {
    /// Whether this is in 224/4.
    pub open spec fn multicast(self) -> bool {
        224 <= self.0 <= 239
    }

    /// Whether this is in 224/4.
    pub fn is_multicast(&self) -> (r: bool)
        ensures
            r == self.multicast(),
    {
        224 <= self.0 && self.0 <= 239
    }
}

/// The octet that `s` spells: up to three decimal digits, without a leading
/// zero.
pub open spec fn octet(s: Seq<char>) -> Option<u8> {
    if text::all_digits(s) && s.len() <= 3 && (s.len() > 1 ==> s[0] != '0') && text::value(s)
        <= 255 {
        Some(text::value(s) as u8)
    } else {
        None
    }
}

/// The address that `s` spells: four octets with dots between them.
pub open spec fn v4_text(s: Seq<char>) -> Option<Ipv4Addr> {
    let parts = text::split(s, '.');
    match (octet(parts[0]), octet(parts[1]), octet(parts[2]), octet(parts[3])) {
        (Some(a), Some(b), Some(c), Some(d)) if parts.len() == 4 => Some(Ipv4Addr(a, b, c, d)),
        _ => None,
    }
}

/// The address and port that `s` spells: an IPv4 address, a colon and a port
/// in decimal.
pub open spec fn socket_v4_text(s: Seq<char>) -> Option<(Ipv4Addr, u16)> {
    let at = text::first_at(s, ':') as int;
    let port = s.skip(at + 1);
    match v4_text(s.take(at)) {
        Some(ip) if at < s.len() && text::all_digits(port) && text::value(port) <= u16::MAX => Some(
            (ip, text::value(port) as u16),
        ),
        _ => None,
    }
}

/// The octet that `s` spells.
fn octet_of(s: &[char]) -> (r: Option<u8>)
    ensures
        r == octet(s@),
{
    if s.len() > 3 || (s.len() > 1 && s[0] == '0') {
        return None;
    }
    match text::digits_value(s, 255) {
        Some(n) => Some(n as u8),
        None => None,
    }
}

/// The IPv4 address that `s` spells.
fn v4_of(s: &[char]) -> (r: Option<Ipv4Addr>)
    ensures
        r == v4_text(s@),
{
    let parts = text::pieces(s, '.');
    if parts.len() != 4 {
        return None;
    }
    assert(text::parts_view(parts@)[0] == parts@[0]@);
    assert(text::parts_view(parts@)[1] == parts@[1]@);
    assert(text::parts_view(parts@)[2] == parts@[2]@);
    assert(text::parts_view(parts@)[3] == parts@[3]@);
    match (octet_of(parts[0]), octet_of(parts[1]), octet_of(parts[2]), octet_of(parts[3])) {
        (Some(a), Some(b), Some(c), Some(d)) => Some(Ipv4Addr(a, b, c, d)),
        _ => None,
    }
}

/// The IPv4 address and port that `s` spells.
pub fn socket_v4(s: &str) -> (r: Option<(Ipv4Addr, u16)>)
    ensures
        r == socket_v4_text(s@),
{
    let chars = text::chars_of(s);
    let chars = chars.as_slice();
    let at = text::find(chars, ':');
    if at >= chars.len() {
        return None;
    }
    assert(chars@.subrange(0, at as int) =~= s@.take(at as int));
    assert(chars@.subrange(at + 1, chars@.len() as int) =~= s@.skip(at + 1));
    match (
        v4_of(slice_subrange(chars, 0, at)),
        text::digits_value(slice_subrange(chars, at + 1, chars.len()), 65535),
    ) {
        (Some(ip), Some(port)) => Some((ip, port as u16)),
        _ => None,
    }
}

// ------------------------------------------------------------------ laws

/// An octet in decimal reads back.
proof fn lemma_octet(n: u8)
    ensures
        octet(text::decimal(n as nat)) == Some(n),
        !text::decimal(n as nat).contains('.'),
        !text::decimal(n as nat).contains(':'),
{
    text::law_decimal_reads_back(n as nat, 255);
    text::lemma_decimal_short(n as nat);
    text::lemma_decimal_holds_no(n as nat, '.');
    text::lemma_decimal_holds_no(n as nat, ':');
    assert(text::decimal(n as nat)[0] != '+') by {
        assert(text::is_digit(text::decimal(n as nat)[0]));
    }
    if n == 0 {
        assert(text::decimal(0).len() == 1);
    }
}

/// The text of `ip`: its octets in decimal with dots between them.
pub open spec fn written_v4(ip: Ipv4Addr) -> Seq<char> {
    text::decimal(ip.0 as nat).push('.') + (text::decimal(ip.1 as nat).push('.') + (text::decimal(
        ip.2 as nat,
    ).push('.') + text::decimal(ip.3 as nat)))
}

/// The text of `ip` and `port`, with a colon between them.
pub open spec fn written_socket_v4(ip: Ipv4Addr, port: u16) -> Seq<char> {
    written_v4(ip).push(':') + text::decimal(port as nat)
}

/// The text of an address splits into the text of its octets.
proof fn lemma_written_v4(ip: Ipv4Addr)
    ensures
        v4_text(written_v4(ip)) == Some(ip),
        !written_v4(ip).contains(':'),
{
    let a = text::decimal(ip.0 as nat);
    let b = text::decimal(ip.1 as nat);
    let c = text::decimal(ip.2 as nat);
    let d = text::decimal(ip.3 as nat);
    lemma_octet(ip.0);
    lemma_octet(ip.1);
    lemma_octet(ip.2);
    lemma_octet(ip.3);
    let cd = c.push('.') + d;
    let bcd = b.push('.') + cd;
    text::lemma_split(a, '.', bcd);
    text::lemma_split(b, '.', cd);
    text::lemma_split(c, '.', d);
    text::lemma_split(d, '.', seq![]);
    assert(text::split(written_v4(ip), '.') =~= seq![a, b, c, d]);
    text::lemma_holds_no(c, '.', d, ':');
    text::lemma_holds_no(b, '.', cd, ':');
    text::lemma_holds_no(a, '.', bcd, ':');
}

/// An address reads back: the text of any IPv4 address and port spells that
/// address and port.
pub proof fn law_address_reads_back(ip: Ipv4Addr, port: u16)
    ensures
        socket_v4_text(written_socket_v4(ip, port)) == Some((ip, port)),
{
    lemma_written_v4(ip);
    text::lemma_parted(written_v4(ip), ':', text::decimal(port as nat));
    text::law_decimal_reads_back(port as nat, u16::MAX as nat);
    assert(text::is_digit(text::decimal(port as nat)[0]));
}

/// An octet is read from its decimal alone.
proof fn lemma_octet_written(s: Seq<char>, n: u8)
    requires
        octet(s) == Some(n),
    ensures
        s == text::decimal(n as nat),
{
    let short = text::decimal(n as nat);
    text::law_digits_spell_their_decimal(s, n as nat);
    text::law_decimal_reads_back(n as nat, n as nat);
    let at = s.len() - short.len();
    if at > 0 {
        assert(s[0] == '0');
    }
    assert(s.skip(0) =~= s);
}

/// An address is read from its text alone.
proof fn lemma_v4_written(s: Seq<char>, ip: Ipv4Addr)
    requires
        v4_text(s) == Some(ip),
    ensures
        s == written_v4(ip),
{
    let parts = text::split(s, '.');
    lemma_octet_written(parts[0], ip.0);
    lemma_octet_written(parts[1], ip.1);
    lemma_octet_written(parts[2], ip.2);
    lemma_octet_written(parts[3], ip.3);
    text::lemma_unsplit(s, '.');
    let bcd = s.skip(parts[0].len() as int + 1);
    assert(text::split(bcd, '.') =~= seq![parts[1], parts[2], parts[3]]);
    text::lemma_unsplit(bcd, '.');
    let cd = bcd.skip(parts[1].len() as int + 1);
    assert(text::split(cd, '.') =~= seq![parts[2], parts[3]]);
    text::lemma_unsplit(cd, '.');
    let d = cd.skip(parts[2].len() as int + 1);
    assert(text::split(d, '.') =~= seq![parts[3]]);
    text::lemma_unsplit(d, '.');
}

/// An address is read just where it is written: text spells an IPv4 address
/// and a port where it is the four octets in decimal with dots between them,
/// a colon and digits that spell the port, and nowhere else.
pub proof fn law_address_is_read_just_where_written(s: Seq<char>, ip: Ipv4Addr, port: u16)
    ensures
        socket_v4_text(s) == Some((ip, port)) <==> {
            let front = text::decimal(ip.0 as nat) + "."@ + text::decimal(ip.1 as nat) + "."@
                + text::decimal(ip.2 as nat) + "."@ + text::decimal(ip.3 as nat) + ":"@;
            &&& text::starts(s, front)
            &&& text::all_digits(s.skip(front.len() as int))
            &&& text::value(s.skip(front.len() as int)) == port
        },
{
    reveal_strlit(".");
    reveal_strlit(":");
    let written = written_v4(ip);
    let front = text::decimal(ip.0 as nat) + "."@ + text::decimal(ip.1 as nat) + "."@
        + text::decimal(ip.2 as nat) + "."@ + text::decimal(ip.3 as nat) + ":"@;
    assert(front =~= written.push(':'));
    lemma_written_v4(ip);
    let digits = s.skip(front.len() as int);
    text::law_beginnings_and_endings(front, digits, s);
    if text::starts(s, front) && text::all_digits(digits) && text::value(digits) == port {
        text::lemma_parted(written, ':', digits);
        assert(socket_v4_text(s) == Some((ip, port)));
    }
    if socket_v4_text(s) == Some((ip, port)) {
        let at = text::first_at(s, ':') as int;
        text::lemma_first_at(s, ':');
        lemma_v4_written(s.take(at), ip);
        assert(s =~= front + s.skip(at + 1));
        assert(s.take(front.len() as int) =~= front);
    }
}

} // verus!
