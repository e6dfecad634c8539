//! IPv4 and MAC addresses: their text forms, `address:port` endpoints, and the
//! host neighbour table.

use vstd::prelude::*;
use crate::text::{
    chars_of, contents, decimal, decimal_reads_back, decimals_are_unique, fields, joined, lemma_decimal,
    lemma_pieces_extend, lemma_pieces_separate, lines, number, parse_unsigned, pieces, pieces_join_back, push_decimal,
    same_text, split, split_fields, split_lines, unsigned, without_plus, Separator,
};

verus! {

/// An IPv4 address, held as its value in host byte order.
#[derive(Debug, Clone, Copy, PartialEq, Eq, Structural)]
pub struct Ipv4Addr {
    pub bits: u32,
}

/// The text of a MAC address that stands for an unresolved neighbour.
pub const UNRESOLVED_MAC: &'static str = "00:00:00:00:00:00";

impl Ipv4Addr {
    /// Octet `i` of the address, the most significant one first.
    pub open spec fn octet(self, i: int) -> nat {
        if i == 0 {
            (self.bits / 0x1000000) as nat
        } else if i == 1 {
            (self.bits / 0x10000 % 256) as nat
        } else if i == 2 {
            (self.bits / 0x100 % 256) as nat
        } else {
            (self.bits % 256) as nat
        }
    }

    /// The address in dotted decimal.
    pub open spec fn text(self) -> Seq<char> {
        decimal(self.octet(0)).push('.') + decimal(self.octet(1)).push('.') + decimal(
            self.octet(2),
        ).push('.') + decimal(self.octet(3))
    }

    /// The address with the given octets.
    pub fn new(a: u8, b: u8, c: u8, d: u8) -> (addr: Self)
        ensures
            addr.octet(0) == a,
            addr.octet(1) == b,
            addr.octet(2) == c,
            addr.octet(3) == d,
    {
        let (a, b, c, d): (u32, u32, u32, u32) = (a as u32, b as u32, c as u32, d as u32);
        let bits: u32 = a * 0x1000000 + b * 0x10000 + c * 0x100 + d;
        proof {
            lemma_octets(a, b, c, d, bits);
        }
        Ipv4Addr { bits }
    }

    /// The address as a number, host byte order.
    pub fn to_bits(&self) -> (bits: u32)
        ensures
            bits == self.bits,
    {
        self.bits
    }

    /// Append the address in dotted decimal.
    pub fn push_text(&self, out: &mut String)
        ensures
            final(out)@ == old(out)@ + self.text(),
    {
        push_decimal(out, (self.bits / 0x1000000) as u64);
        out.push('.');
        push_decimal(out, (self.bits / 0x10000 % 256) as u64);
        out.push('.');
        push_decimal(out, (self.bits / 0x100 % 256) as u64);
        out.push('.');
        push_decimal(out, (self.bits % 256) as u64);
        assert(out@ =~= old(out)@ + self.text());
    }
}

/// A number put together from four octets comes apart into the same four.
proof fn lemma_octets(a: u32, b: u32, c: u32, d: u32, bits: u32)
    requires
        a <= 255,
        b <= 255,
        c <= 255,
        d <= 255,
        bits == a * 0x1000000 + b * 0x10000 + c * 0x100 + d,
    ensures
        bits / 0x1000000 == a,
        bits / 0x10000 % 256 == b,
        bits / 0x100 % 256 == c,
        bits % 256 == d,
{
    let low = b * 0x10000 + c * 0x100 + d;
    assert(bits == a * 0x1000000 + low && 0 <= low < 0x1000000);
    let mid = c * 0x100 + d;
    assert(bits == (a * 256 + b) * 0x10000 + mid && 0 <= mid < 0x10000);
    assert(bits == ((a * 256 + b) * 256 + c) * 0x100 + d);
}

/// The value of one octet in dotted decimal: one to three digits, no leading
/// zero, at most 255.
pub open spec fn octet_value(s: Seq<char>) -> Option<int> {
    if 1 <= s.len() <= 3 && (s.len() > 1 ==> s[0] != '0') && number(s, 10) is Some && number(
        s,
        10,
    )->0 <= 255 {
        number(s, 10)
    } else {
        None
    }
}

/// The address that `s` gives in dotted decimal.
pub open spec fn ipv4(s: Seq<char>) -> Option<Ipv4Addr> {
    let p = pieces(s, Separator::Char { c: '.' });
    if p.len() == 4 && forall|i: int| 0 <= i < 4 ==> octet_value(#[trigger] p[i]) is Some {
        Some(
            Ipv4Addr {
                bits: (octet_value(p[0])->0 * 0x1000000 + octet_value(p[1])->0 * 0x10000
                    + octet_value(p[2])->0 * 0x100 + octet_value(p[3])->0) as u32,
            },
        )
    } else {
        None
    }
}

fn parse_octet(s: &[char]) -> (v: Option<u32>)
    ensures
        match v {
            Some(n) => octet_value(s@) == Some(n as int) && n <= 255,
            None => octet_value(s@) is None,
        },
{
    if s.len() == 0 || s.len() > 3 {
        return None;
    }
    if s.len() > 1 && s[0] == '0' {
        return None;
    }
    if s[0] == '+' {
        proof {
            lemma_plus_is_no_digit(s@);
        }
        return None;
    }
    assert(without_plus(s@) == s@);
    parse_unsigned(s, 10, 255)
}

proof fn lemma_plus_is_no_digit(s: Seq<char>)
    requires
        s.len() > 0,
        s[0] == '+',
    ensures
        number(s, 10) is None,
    decreases s.len(),
{
    if s.len() > 1 {
        lemma_plus_is_no_digit(s.drop_last());
    } else {
        assert(s.last() == '+');
    }
}

/// Parse an address in dotted decimal.
pub fn parse_ipv4(s: &[char]) -> (addr: Option<Ipv4Addr>)
    ensures
        addr == ipv4(s@),
{
    let parts = split(s, Separator::Char { c: '.' });
    let ghost p = pieces(s@, Separator::Char { c: '.' });
    assert(contents(parts@) == p);
    if parts.len() != 4 {
        return None;
    }
    assert(forall|i: int| 0 <= i < 4 ==> #[trigger] p[i] == parts@[i]@);
    let mut values: [u32; 4] = [0; 4];
    let mut i: usize = 0;
    while i < 4
        invariant
            i <= 4,
            parts@.len() == 4,
            p.len() == 4,
            p == pieces(s@, Separator::Char { c: '.' }),
            forall|i: int| 0 <= i < 4 ==> #[trigger] p[i] == parts@[i]@,
            forall|k: int|
                0 <= k < i ==> octet_value(#[trigger] p[k]) == Some(values@[k] as int) && values@[k]
                    <= 255,
        decreases 4 - i,
    {
        match parse_octet(parts[i].as_slice()) {
            None => {
                assert(octet_value(p[i as int]) is None);
                return None;
            },
            Some(v) => {
                values[i] = v;
            },
        }
        i = i + 1;
    }
    assert(octet_value(p[0]) is Some && octet_value(p[1]) is Some && octet_value(p[2]) is Some
        && octet_value(p[3]) is Some);
    let bits: u32 = values[0] * 0x1000000 + values[1] * 0x10000 + values[2] * 0x100 + values[3];
    Some(Ipv4Addr { bits })
}

/// Why a text is no endpoint.
#[derive(Debug, Clone, Copy, PartialEq, Eq, Structural)]
pub enum EndpointError {
    /// An address is followed by something that is no port.
    BadPort,
    /// There is no IPv4 address.
    BadIpv4,
}

/// Where `c` occurs last in `s`.
pub open spec fn last_index(s: Seq<char>, c: char) -> Option<int>
    decreases s.len(),
{
    if s.len() == 0 {
        None
    } else if s.last() == c {
        Some(s.len() - 1)
    } else {
        last_index(s.drop_last(), c)
    }
}

/// What `s` means as an endpoint: what follows the last colon is a port if what
/// comes before it is an address; otherwise all of `s` has to be an address.
pub open spec fn endpoint(s: Seq<char>) -> Result<(Ipv4Addr, Option<u16>), EndpointError> {
    let colon = last_index(s, ':');
    if colon is Some && ipv4(s.take(colon->0)) is Some {
        match unsigned(s.skip(colon->0 + 1), 10, 65535) {
            Some(port) => Ok((ipv4(s.take(colon->0))->0, Some(port as u16))),
            None => Err(EndpointError::BadPort),
        }
    } else {
        match ipv4(s) {
            Some(ip) => Ok((ip, None)),
            None => Err(EndpointError::BadIpv4),
        }
    }
}

fn find_last(s: &[char], c: char) -> (at: Option<usize>)
    ensures
        match at {
            Some(i) => last_index(s@, c) == Some(i as int) && i < s@.len(),
            None => last_index(s@, c) is None,
        },
{
    let mut i: usize = s.len();
    assert(s@.take(i as int) =~= s@);
    while i > 0
        invariant
            i <= s@.len(),
            last_index(s@.take(i as int), c) == last_index(s@, c),
        decreases i,
    {
        assert(s@.take(i as int).drop_last() =~= s@.take(i - 1));
        assert(s@.take(i as int).last() == s@[i - 1]);
        if s[i - 1] == c {
            return Some(i - 1);
        }
        i = i - 1;
    }
    None
}

/// Parse `"1.2.3.4"` or `"1.2.3.4:3000"` into an address and optional port.
pub fn parse_endpoint(s: &str) -> (r: Result<(Ipv4Addr, Option<u16>), EndpointError>)
    ensures
        r == endpoint(s@),
{
    let chars = chars_of(s);
    if let Some(colon) = find_last(chars.as_slice(), ':') {
        let before = vstd::slice::slice_subrange(chars.as_slice(), 0, colon);
        assert(before@ =~= s@.take(colon as int));
        if let Some(ip) = parse_ipv4(before) {
            let after = vstd::slice::slice_subrange(chars.as_slice(), colon + 1, chars.len());
            assert(after@ =~= s@.skip(colon + 1));
            return match parse_unsigned(after, 10, 65535) {
                Some(port) => Ok((ip, Some(port as u16))),
                None => Err(EndpointError::BadPort),
            };
        }
    }
    match parse_ipv4(chars.as_slice()) {
        Some(ip) => Ok((ip, None)),
        None => Err(EndpointError::BadIpv4),
    }
}

/// Why a text is no MAC address.
#[derive(Debug, Clone, Copy, PartialEq, Eq, Structural)]
pub enum MacError {
    TooFewOctets,
    /// The octet at `slot` is no hexadecimal number up to `ff`.
    BadOctet { slot: usize },
    TooManyOctets,
}

/// The first `n` octets of a MAC address, or the first thing wrong with them.
pub open spec fn mac_octets(parts: Seq<Seq<char>>, n: nat) -> Result<Seq<u8>, MacError>
    decreases n,
{
    if n == 0 {
        Ok(Seq::empty())
    } else {
        let slot = n - 1;
        match mac_octets(parts, slot as nat) {
            Err(e) => Err(e),
            Ok(before) => if slot >= parts.len() {
                Err(MacError::TooFewOctets)
            } else {
                match unsigned(parts[slot], 16, 255) {
                    Some(v) => Ok(before.push(v as u8)),
                    None => Err(MacError::BadOctet { slot: slot as usize }),
                }
            },
        }
    }
}

/// The MAC address that `s` gives as six hexadecimal octets between colons.
pub open spec fn mac(s: Seq<char>) -> Result<Seq<u8>, MacError> {
    let parts = pieces(s, Separator::Char { c: ':' });
    match mac_octets(parts, 6) {
        Err(e) => Err(e),
        Ok(octets) => if parts.len() > 6 {
            Err(MacError::TooManyOctets)
        } else {
            Ok(octets)
        },
    }
}

proof fn lemma_mac_error_stays(parts: Seq<Seq<char>>, n: nat, m: nat)
    requires
        n <= m,
        mac_octets(parts, n) is Err,
    ensures
        mac_octets(parts, m) == mac_octets(parts, n),
    decreases m,
{
    if n < m {
        lemma_mac_error_stays(parts, n, (m - 1) as nat);
    }
}

fn parse_mac_chars(s: &[char]) -> (r: Result<[u8; 6], MacError>)
    ensures
        match r {
            Ok(m) => mac(s@) == Ok::<Seq<u8>, MacError>(m@),
            Err(e) => mac(s@) == Err::<Seq<u8>, MacError>(e),
        },
{
    let parts = split(s, Separator::Char { c: ':' });
    let ghost p = pieces(s@, Separator::Char { c: ':' });
    assert(contents(parts@) == p);
    assert(forall|i: int| 0 <= i < parts@.len() ==> #[trigger] p[i] == parts@[i]@);
    let mut octets: [u8; 6] = [0; 6];
    let mut i: usize = 0;
    assert(octets@.take(0) =~= Seq::empty());
    while i < 6
        invariant
            i <= 6,
            p == pieces(s@, Separator::Char { c: ':' }),
            p.len() == parts@.len(),
            forall|i: int| 0 <= i < parts@.len() ==> #[trigger] p[i] == parts@[i]@,
            mac_octets(p, i as nat) == Ok::<Seq<u8>, MacError>(octets@.take(i as int)),
        decreases 6 - i,
    {
        if i >= parts.len() {
            proof {
                lemma_mac_error_stays(p, (i + 1) as nat, 6);
            }
            return Err(MacError::TooFewOctets);
        }
        let ghost before = octets@;
        match parse_unsigned(parts[i].as_slice(), 16, 255) {
            None => {
                proof {
                    lemma_mac_error_stays(p, (i + 1) as nat, 6);
                }
                return Err(MacError::BadOctet { slot: i });
            },
            Some(v) => {
                octets[i] = v as u8;
            },
        }
        i = i + 1;
        assert(octets@.take(i as int) =~= before.take(i - 1).push(octets@[i - 1]));
    }
    assert(octets@.take(6) =~= octets@);
    if parts.len() > 6 {
        return Err(MacError::TooManyOctets);
    }
    Ok(octets)
}

/// Parse a `aa:bb:cc:dd:ee:ff` MAC address.
pub fn parse_mac(s: &str) -> (r: Result<[u8; 6], MacError>)
    ensures
        match r {
            Ok(m) => mac(s@) == Ok::<Seq<u8>, MacError>(m@),
            Err(e) => mac(s@) == Err::<Seq<u8>, MacError>(e),
        },
{
    let chars = chars_of(s);
    parse_mac_chars(chars.as_slice())
}

/// The MAC that the neighbour table lines from `i` on give for `target`.
/// Columns: IP address, HW type, Flags, HW address, Mask, Device. Lines without
/// these columns, and unresolved or unreadable addresses, are passed over.
pub open spec fn neighbour(table: Seq<Seq<char>>, target: Seq<char>, i: int) -> Option<Seq<u8>>
    decreases table.len() - i,
{
    if i >= table.len() {
        None
    } else {
        let cols = fields(table[i]);
        if cols.len() >= 4 && cols[0] == target && cols[3] != UNRESOLVED_MAC@ && mac(
            cols[3],
        ) is Ok {
            Some(mac(cols[3])->Ok_0)
        } else {
            neighbour(table, target, i + 1)
        }
    }
}

/// The MAC of `ip` in a neighbour table whose first line is a heading.
pub open spec fn resolved_mac(arp: Option<Seq<char>>, ip: Ipv4Addr) -> Option<Seq<u8>> {
    match arp {
        Some(text) => neighbour(lines(text), ip.text(), 1),
        None => None,
    }
}

/// Resolve an IPv4's MAC from the text of the host neighbour table
/// (`/proc/net/arp`), if that could be read.
///
/// Returns `None` if there is no entry yet (the kernel only populates it after
/// traffic to the host). For such cases, set the MAC explicitly in config.
pub fn resolve_mac(arp: Option<&str>, ip: Ipv4Addr) -> (found: Option<[u8; 6]>)
    ensures
        match found {
            Some(m) => resolved_mac(
                match arp {
                    Some(s) => Some(s@),
                    None => None,
                },
                ip,
            ) == Some(m@),
            None => resolved_mac(
                match arp {
                    Some(s) => Some(s@),
                    None => None,
                },
                ip,
            ) is None,
        },
{
    let text = match arp {
        Some(text) => text,
        None => return None,
    };
    let mut target = String::new();
    ip.push_text(&mut target);
    assert(target@ =~= ip.text());
    let chars = chars_of(text);
    let table = split_lines(chars.as_slice());
    let ghost all = lines(text@);
    assert(contents(table@) == all);
    let mut i: usize = 1;
    while i < table.len()
        invariant
            1 <= i,
            target@ == ip.text(),
            all == lines(text@),
            contents(table@) == all,
            arp == Some(text),
            resolved_mac(Some(text@), ip) == neighbour(all, ip.text(), i as int),
        decreases table@.len() - i,
    {
        let cols = split_fields(table[i].as_slice());
        assert(table@[i as int]@ == all[i as int]);
        assert(contents(cols@) == fields(all[i as int]));
        if cols.len() >= 4 {
            assert(cols@[0]@ == fields(all[i as int])[0]);
            assert(cols@[3]@ == fields(all[i as int])[3]);
            if same_text(cols[0].as_slice(), target.as_str()) && !same_text(
                cols[3].as_slice(),
                UNRESOLVED_MAC,
            ) {
                if let Ok(m) = parse_mac_chars(cols[3].as_slice()) {
                    return Some(m);
                }
            }
        }
        i = i + 1;
    }
    None
}

proof fn lemma_octet_text(n: nat)
    requires
        n <= 255,
    ensures
        octet_value(decimal(n)) == Some(n as int),
{
    lemma_decimal(n);
    decimal_reads_back(n);
}

/// The pieces of an address in dotted decimal are its octets.
proof fn lemma_text_pieces(addr: Ipv4Addr)
    ensures
        pieces(addr.text(), Separator::Char { c: '.' }) == seq![
            decimal(addr.octet(0)),
            decimal(addr.octet(1)),
            decimal(addr.octet(2)),
            decimal(addr.octet(3)),
        ],
        forall|i: int|
            0 <= i < addr.text().len() ==> ('0' <= #[trigger] addr.text()[i] <= '9'
                || addr.text()[i] == '.'),
{
    let dot = Separator::Char { c: '.' };
    let d0 = decimal(addr.octet(0));
    let d1 = decimal(addr.octet(1));
    let d2 = decimal(addr.octet(2));
    let d3 = decimal(addr.octet(3));
    lemma_decimal(addr.octet(0));
    lemma_decimal(addr.octet(1));
    lemma_decimal(addr.octet(2));
    lemma_decimal(addr.octet(3));
    let none = Seq::<char>::empty();
    let s0 = none + d0;
    let s1 = s0.push('.') + d1;
    let s2 = s1.push('.') + d2;
    let s3 = s2.push('.') + d3;
    assert(s3 =~= addr.text());
    lemma_pieces_extend(none, d0, dot);
    assert(pieces(s0, dot) =~= seq![d0]);
    lemma_pieces_separate(s0, '.', dot);
    lemma_pieces_extend(s0.push('.'), d1, dot);
    assert(pieces(s1, dot) =~= seq![d0, d1]);
    lemma_pieces_separate(s1, '.', dot);
    lemma_pieces_extend(s1.push('.'), d2, dot);
    assert(pieces(s2, dot) =~= seq![d0, d1, d2]);
    lemma_pieces_separate(s2, '.', dot);
    lemma_pieces_extend(s2.push('.'), d3, dot);
    assert(pieces(s3, dot) =~= seq![d0, d1, d2, d3]);
}

/// Law: an address written in dotted decimal reads back as itself.
pub proof fn address_reads_back(addr: Ipv4Addr)
    ensures
        ipv4(addr.text()) == Some(addr),
{
    lemma_text_pieces(addr);
    lemma_octet_text(addr.octet(0));
    lemma_octet_text(addr.octet(1));
    lemma_octet_text(addr.octet(2));
    lemma_octet_text(addr.octet(3));
    let p = pieces(addr.text(), Separator::Char { c: '.' });
    assert(octet_value(p[0]) is Some && octet_value(p[1]) is Some && octet_value(p[2]) is Some
        && octet_value(p[3]) is Some);
}

proof fn lemma_last_index_absent(s: Seq<char>, c: char)
    requires
        forall|i: int| 0 <= i < s.len() ==> #[trigger] s[i] != c,
    ensures
        last_index(s, c) is None,
    decreases s.len(),
{
    if s.len() > 0 {
        assert(s[s.len() - 1] != c);
        assert forall|i: int| 0 <= i < s.drop_last().len() implies #[trigger] s.drop_last()[i]
            != c by {
            assert(s[i] != c);
        }
        lemma_last_index_absent(s.drop_last(), c);
    }
}

proof fn lemma_last_index_found(s: Seq<char>, c: char, t: Seq<char>)
    requires
        forall|i: int| 0 <= i < t.len() ==> #[trigger] t[i] != c,
    ensures
        last_index(s.push(c) + t, c) == Some(s.len() as int),
    decreases t.len(),
{
    let w = s.push(c) + t;
    if t.len() == 0 {
        assert(w =~= s.push(c));
    } else {
        assert(t[t.len() - 1] != c);
        assert(w.drop_last() =~= s.push(c) + t.drop_last());
        assert forall|i: int| 0 <= i < t.drop_last().len() implies #[trigger] t.drop_last()[i]
            != c by {
            assert(t[i] != c);
        }
        lemma_last_index_found(s, c, t.drop_last());
    }
}

/// Law: an address alone reads back as an endpoint without a port, and an address
/// with a port as that address and that port.
pub proof fn endpoint_reads_back(addr: Ipv4Addr, port: u16)
    ensures
        endpoint(addr.text()) == Ok::<(Ipv4Addr, Option<u16>), EndpointError>((addr, None)),
        endpoint(addr.text().push(':') + decimal(port as nat)) == Ok::<
            (Ipv4Addr, Option<u16>),
            EndpointError,
        >((addr, Some(port))),
{
    address_reads_back(addr);
    lemma_text_pieces(addr);
    lemma_last_index_absent(addr.text(), ':');
    let digits = decimal(port as nat);
    lemma_decimal(port as nat);
    decimal_reads_back(port as nat);
    lemma_last_index_found(addr.text(), ':', digits);
    let s = addr.text().push(':') + digits;
    assert(s.take(addr.text().len() as int) =~= addr.text());
    assert(s.skip(addr.text().len() as int + 1) =~= digits);
    assert(without_plus(digits) == digits);
}

/// Law: an address is read from its dotted decimal text and from nothing else.
pub proof fn addresses_are_dotted_decimal(s: Seq<char>, addr: Ipv4Addr)
    ensures
        ipv4(s) == Some(addr) <==> s == addr.text(),
{
    address_reads_back(addr);
    if ipv4(s) == Some(addr) {
        let c = '.';
        let p = pieces(s, Separator::Char { c });
        assert(octet_value(p[0]) is Some && octet_value(p[1]) is Some && octet_value(p[2]) is Some
            && octet_value(p[3]) is Some);
        let a = octet_value(p[0])->0;
        let b = octet_value(p[1])->0;
        let e = octet_value(p[2])->0;
        let d = octet_value(p[3])->0;
        lemma_octet_range(p[0]);
        lemma_octet_range(p[1]);
        lemma_octet_range(p[2]);
        lemma_octet_range(p[3]);
        lemma_octets(a as u32, b as u32, e as u32, d as u32, addr.bits);
        assert(p =~= seq![
            decimal(addr.octet(0)),
            decimal(addr.octet(1)),
            decimal(addr.octet(2)),
            decimal(addr.octet(3)),
        ]);
        lemma_text_pieces(addr);
        pieces_join_back(s, seq![Seq::empty()], c);
        pieces_join_back(addr.text(), seq![Seq::empty()], c);
    }
}

proof fn lemma_octet_range(s: Seq<char>)
    requires
        octet_value(s) is Some,
    ensures
        0 <= octet_value(s)->0 <= 255,
        s == decimal(octet_value(s)->0 as nat),
{
    lemma_number_not_negative(s);
    decimals_are_unique(s, octet_value(s)->0 as nat);
}

proof fn lemma_number_not_negative(s: Seq<char>)
    requires
        number(s, 10) is Some,
    ensures
        number(s, 10)->0 >= 0,
    decreases s.len(),
{
    if s.len() > 0 {
        lemma_number_not_negative(s.drop_last());
    }
}

/// Law: behind an address and a colon stands its port, or else the endpoint is rejected
/// for its port.
pub proof fn endpoints_are_addresses_with_ports(addr: Ipv4Addr, port: Seq<char>)
    requires
        forall|i: int| 0 <= i < port.len() ==> #[trigger] port[i] != ':',
    ensures
        endpoint(addr.text()) == Ok::<(Ipv4Addr, Option<u16>), EndpointError>((addr, None)),
        unsigned(port, 10, 65535) is Some ==> endpoint(addr.text() + seq![':'] + port) == Ok::<
            (Ipv4Addr, Option<u16>),
            EndpointError,
        >((addr, Some(unsigned(port, 10, 65535)->0 as u16))),
        unsigned(port, 10, 65535) is None ==> endpoint(addr.text() + seq![':'] + port) == Err::<
            (Ipv4Addr, Option<u16>),
            EndpointError,
        >(EndpointError::BadPort),
{
    endpoint_reads_back(addr, 0);
    address_reads_back(addr);
    let s = addr.text() + seq![':'] + port;
    assert(s =~= addr.text().push(':') + port);
    lemma_last_index_found(addr.text(), ':', port);
    assert(s.take(addr.text().len() as int) =~= addr.text());
    assert(s.skip(addr.text().len() as int + 1) =~= port);
}

/// Law: what is neither an address nor an address, a colon and more text without a colon
/// is rejected for its address.
pub proof fn nothing_else_is_an_endpoint(s: Seq<char>)
    requires
        forall|addr: Ipv4Addr| s != #[trigger] addr.text(),
        forall|addr: Ipv4Addr, port: Seq<char>|
            s == #[trigger] (addr.text() + seq![':'] + port) ==> port.contains(':'),
    ensures
        endpoint(s) == Err::<(Ipv4Addr, Option<u16>), EndpointError>(EndpointError::BadIpv4),
{
    if ipv4(s) is Some {
        addresses_are_dotted_decimal(s, ipv4(s)->0);
    }
    let colon = last_index(s, ':');
    if colon is Some {
        lemma_last_index(s, ':');
        let at = colon->0;
        let before = s.take(at);
        let port = s.skip(at + 1);
        if ipv4(before) is Some {
            let addr = ipv4(before)->0;
            addresses_are_dotted_decimal(before, addr);
            assert(s =~= addr.text() + seq![':'] + port);
            if port.contains(':') {
                let k = choose|k: int| 0 <= k < port.len() && port[k] == ':';
                assert(s[at + 1 + k] == ':');
            }
        }
    }
}

proof fn lemma_last_index(s: Seq<char>, c: char)
    requires
        last_index(s, c) is Some,
    ensures
        0 <= last_index(s, c)->0 < s.len(),
        s[last_index(s, c)->0] == c,
        forall|i: int| last_index(s, c)->0 < i < s.len() ==> #[trigger] s[i] != c,
    decreases s.len(),
{
    if s.last() != c {
        let t = s.drop_last();
        lemma_last_index(t, c);
        assert forall|i: int| last_index(s, c)->0 < i < s.len() implies #[trigger] s[i] != c by {
            if i < t.len() {
                assert(t[i] != c);
            }
        }
    }
}

proof fn lemma_mac_octets(parts: Seq<Seq<char>>, n: nat)
    requires
        n <= parts.len(),
        forall|i: int| 0 <= i < n ==> unsigned(#[trigger] parts[i], 16, 255) is Some,
    ensures
        mac_octets(parts, n) is Ok,
        mac_octets(parts, n)->Ok_0.len() == n,
        forall|i: int|
            0 <= i < n ==> #[trigger] mac_octets(parts, n)->Ok_0[i] == unsigned(
                parts[i],
                16,
                255,
            )->0 as u8,
    decreases n,
{
    if n > 0 {
        lemma_mac_octets(parts, (n - 1) as nat);
        assert(unsigned(parts[n - 1], 16, 255) is Some);
    }
}

/// Law: a MAC address is six hexadecimal numbers up to `ff` with colons between them. The
/// first octet that is none, then too few and then too many octets, is what it is
/// rejected for.
pub proof fn macs_are_six_octets(parts: Seq<Seq<char>>, good: nat)
    requires
        parts.len() > 0,
        forall|k: int, i: int|
            0 <= k < parts.len() && 0 <= i < parts[k].len() ==> #[trigger] parts[k][i] != ':',
        good <= parts.len(),
        forall|i: int| 0 <= i < good ==> unsigned(#[trigger] parts[i], 16, 255) is Some,
        good < parts.len() ==> unsigned(parts[good as int], 16, 255) is None,
    ensures
        ({
            let r = mac(joined(parts, ':'));
            &&& good < 6 && good < parts.len() ==> r == Err::<Seq<u8>, MacError>(
                MacError::BadOctet { slot: good as usize },
            )
            &&& good < 6 && good == parts.len() ==> r == Err::<Seq<u8>, MacError>(
                MacError::TooFewOctets,
            )
            &&& good >= 6 && parts.len() > 6 ==> r == Err::<Seq<u8>, MacError>(
                MacError::TooManyOctets,
            )
            &&& good == 6 && parts.len() == 6 ==> {
                &&& r is Ok
                &&& r->Ok_0.len() == 6
                &&& forall|i: int|
                    0 <= i < 6 ==> #[trigger] r->Ok_0[i] == unsigned(parts[i], 16, 255)->0 as u8
            }
        }),
{
    pieces_join_back(Seq::empty(), parts, ':');
    if good < 6 {
        lemma_mac_octets(parts, good);
        lemma_mac_error_stays(parts, good + 1, 6);
    } else {
        lemma_mac_octets(parts, 6);
    }
}

/// A line of the neighbour table that gives the MAC of an address: its first column is the
/// address, and its fourth a MAC address that is not all zeroes.
pub open spec fn is_neighbour(line: Seq<char>, addr: Ipv4Addr) -> bool {
    &&& fields(line).len() >= 4
    &&& fields(line)[0] == addr.text()
    &&& fields(line)[3] != "00:00:00:00:00:00"@
    &&& mac(fields(line)[3]) is Ok
}

proof fn lemma_neighbour(table: Seq<Seq<char>>, addr: Ipv4Addr, i: int, k: int)
    requires
        0 <= i <= k <= table.len(),
        forall|j: int| i <= j < k ==> !is_neighbour(#[trigger] table[j], addr),
        k < table.len() ==> is_neighbour(table[k], addr),
    ensures
        k < table.len() ==> neighbour(table, addr.text(), i) == Some(
            mac(fields(table[k])[3])->Ok_0,
        ),
        k == table.len() ==> neighbour(table, addr.text(), i) is None,
    decreases k - i,
{
    if i < k {
        assert(!is_neighbour(table[i], addr));
        lemma_neighbour(table, addr, i + 1, k);
    }
}

/// Law: the MAC of an address is that of the first line, after the heading, that gives
/// one, whatever the other lines hold. Without such a line there is none. `k` is where
/// the line stands, or the number of lines.
pub proof fn neighbours_are_looked_up(text: Seq<char>, addr: Ipv4Addr, k: int)
    requires
        1 <= k,
        forall|j: int|
            1 <= j < k && j < lines(text).len() ==> !is_neighbour(#[trigger] lines(text)[j], addr),
        k < lines(text).len() ==> is_neighbour(lines(text)[k], addr),
    ensures
        k < lines(text).len() ==> resolved_mac(Some(text), addr) == Some(
            mac(fields(lines(text)[k])[3])->Ok_0,
        ),
        k >= lines(text).len() ==> resolved_mac(Some(text), addr) is None,
        resolved_mac(None, addr) is None,
{
    let table = lines(text);
    if table.len() >= 1 {
        let end: int = if k < table.len() {
            k
        } else {
            table.len() as int
        };
        lemma_neighbour(table, addr, 1, end);
    }
}

/// Law: the octets of an address are the base-256 digits of its value, and its text gives
/// them in decimal with dots between them.
pub proof fn octets_make_up_the_address(addr: Ipv4Addr)
    ensures
        addr.octet(0) * 0x1000000 + addr.octet(1) * 0x10000 + addr.octet(2) * 0x100 + addr.octet(3)
            == addr.bits,
        forall|i: int| 0 <= i < 4 ==> #[trigger] addr.octet(i) <= 255,
        addr.text() == joined(
            seq![
                decimal(addr.octet(0)),
                decimal(addr.octet(1)),
                decimal(addr.octet(2)),
                decimal(addr.octet(3)),
            ],
            '.',
        ),
{
    lemma_text_pieces(addr);
    pieces_join_back(addr.text(), seq![Seq::empty()], '.');
}

} // verus!
