//! The address that an endpoint listens on, and how it is written.
//!
//! An address is four decimal octets with dots between them, a colon and a decimal
//! port: `127.0.0.1:8000`. A port alone, `8000`, stands for every address of the
//! host, `0.0.0.0`.
use vstd::prelude::*;

use crate::split::{find, lemma_find};
use crate::text::chars_of;

verus! {

/// An IPv4 address and a port.
#[derive(Debug, Clone, Copy, PartialEq, Eq)]
pub struct Addr {
    pub ip: [u8; 4],
    pub port: u16,
}

/// An address as a mathematical value: the octets and the port.
pub struct AddrView {
    pub ip: Seq<u8>,
    pub port: u16,
}

impl View for Addr {
    type V = AddrView;

    open spec fn view(&self) -> AddrView {
        AddrView { ip: self.ip@, port: self.port }
    }
}

/// The view of an address has its octets, in order, and its port.
pub proof fn law_view_of_addr(addr: Addr)
    ensures
        addr@.ip.len() == 4,
        forall|i: int| 0 <= i < 4 ==> #[trigger] addr@.ip[i] == addr.ip[i],
        addr@.port == addr.port,
{
}

/// Whether a character is a decimal digit.
pub open spec fn is_digit(c: char) -> bool {
    '0' as u32 <= c as u32 <= '9' as u32
}

/// Whether `s` is a decimal number: digits, and at least one.
pub open spec fn is_number(s: Seq<char>) -> bool {
    &&& s.len() > 0
    &&& forall|k: int| 0 <= k < s.len() ==> is_digit(#[trigger] s[k])
}

/// The value of a sequence of decimal digits.
pub open spec fn value(s: Seq<char>) -> int
    decreases s.len(),
{
    if s.len() == 0 {
        0
    } else {
        value(s.drop_last()) * 10 + (s.last() as u32 - '0' as u32)
    }
}

/// Whether `s` is an octet: at most three digits, none of them a leading zero, and a
/// value below 256.
pub open spec fn is_octet(s: Seq<char>) -> bool {
    &&& is_number(s)
    &&& s.len() <= 3
    &&& s.len() > 1 ==> s[0] != '0'
    &&& value(s) <= u8::MAX
}

/// Whether `s` is a port: a number below 65536. Leading zeros are fine.
pub open spec fn is_port(s: Seq<char>) -> bool {
    &&& is_number(s)
    &&& value(s) <= u16::MAX
}

/// The address that `s` spells, if it spells one.
pub open spec fn addr_of(s: Seq<char>) -> Option<AddrView> {
    if is_port(s) {
        Some(AddrView { ip: seq![0, 0, 0, 0], port: value(s) as u16 })
    } else {
        let dot1 = find(s, 0, '.');
        let dot2 = find(s, dot1 + 1, '.');
        let dot3 = find(s, dot2 + 1, '.');
        let colon = find(s, dot3 + 1, ':');
        if colon >= s.len() {
            None
        } else {
            let a = s.subrange(0, dot1);
            let b = s.subrange(dot1 + 1, dot2);
            let c = s.subrange(dot2 + 1, dot3);
            let d = s.subrange(dot3 + 1, colon);
            let port = s.subrange(colon + 1, s.len() as int);
            if is_octet(a) && is_octet(b) && is_octet(c) && is_octet(d) && is_port(port) {
                Some(
                    AddrView {
                        ip: seq![value(a) as u8, value(b) as u8, value(c) as u8, value(d) as u8],
                        port: value(port) as u16,
                    },
                )
            } else {
                None
            }
        }
    }
}

proof fn lemma_value_grows(s: Seq<char>, n: int)
    requires
        is_number(s),
        0 <= n <= s.len(),
    ensures
        0 <= value(s.take(n)) <= value(s),
    decreases s.len() - n, n,
{
    if n < s.len() {
        lemma_value_grows(s, n + 1);
        assert(s.take(n + 1).drop_last() =~= s.take(n));
        assert(is_digit(s[n]));
        lemma_value_natural(s.take(n));
    } else {
        assert(s.take(n) =~= s);
        lemma_value_natural(s);
    }
}

proof fn lemma_value_natural(s: Seq<char>)
    requires
        forall|k: int| 0 <= k < s.len() ==> is_digit(#[trigger] s[k]),
    ensures
        0 <= value(s),
    decreases s.len(),
{
    if s.len() > 0 {
        assert(is_digit(s.last()));
        lemma_value_natural(s.drop_last());
    }
}

/// Reads the number that stands from `from` up to `to`, if one stands there that
/// does not exceed `max`.
fn read_number(chars: &Vec<char>, from: usize, to: usize, max: u16) -> (r: Option<u16>)
    requires
        from <= to <= chars.len(),
    ensures
        ({
            let s = chars@.subrange(from as int, to as int);
            if is_number(s) && value(s) <= max {
                r is Some && r->0 == value(s)
            } else {
                r is None
            }
        }),
{
    let ghost s = chars@.subrange(from as int, to as int);
    if from == to {
        return None;
    }
    let mut n: u32 = 0;
    let mut i: usize = from;
    while i < to
        invariant
            from <= i <= to <= chars.len(),
            s == chars@.subrange(from as int, to as int),
            forall|k: int| 0 <= k < i - from ==> is_digit(#[trigger] s[k]),
            n == value(s.take(i - from)),
            n <= max,
        decreases to - i,
    {
        let c: u32 = chars[i] as u32;
        assert(s[i - from] == chars[i as int]);
        if c < '0' as u32 || c > '9' as u32 {
            assert(!is_digit(s[i - from]));
            return None;
        }
        n = n * 10 + (c - '0' as u32);
        i += 1;
        assert(s.take(i - from).drop_last() =~= s.take(i - from - 1));
        if n > max as u32 {
            proof {
                if is_number(s) {
                    lemma_value_grows(s, i - from);
                }
            }
            return None;
        }
    }
    assert(s.take(s.len() as int) =~= s);
    Some(n as u16)
}

/// Reads an octet that stands from `from` up to `to`.
fn read_octet(chars: &Vec<char>, from: usize, to: usize) -> (r: Option<u8>)
    requires
        from <= to <= chars.len(),
    ensures
        ({
            let s = chars@.subrange(from as int, to as int);
            if is_octet(s) {
                r is Some && r->0 == value(s)
            } else {
                r is None
            }
        }),
{
    if to - from > 3 || (to - from > 1 && chars[from] == '0') {
        return None;
    }
    match read_number(chars, from, to, 255) {
        Some(n) => Some(n as u8),
        None => None,
    }
}

/// The first position from `from` on where `c` stands, or the end.
fn find_char(chars: &Vec<char>, from: usize, c: char) -> (p: usize)
    requires
        from <= chars.len(),
    ensures
        p == find(chars@, from as int, c),
        from <= p <= chars.len(),
{
    let mut i: usize = from;
    while i < chars.len() && chars[i] != c
        invariant
            from <= i <= chars.len(),
            find(chars@, from as int, c) == find(chars@, i as int, c),
        decreases chars.len() - i,
    {
        i += 1;
    }
    i
}

/// Reads the address that a text spells.
pub fn parse_addr(text: &str) -> (r: Option<Addr>)
    ensures
        match addr_of(text@) {
            Some(addr) => r is Some && r->0@ == addr,
            None => r is None,
        },
{
    let chars = chars_of(text);
    let len = chars.len();
    let ghost s = text@;
    assert(s.subrange(0, len as int) =~= s);
    if let Some(port) = read_number(&chars, 0, len, 65535) {
        let addr = Addr { ip: [0, 0, 0, 0], port };
        assert(addr.ip@ =~= seq![0, 0, 0, 0]);
        return Some(addr);
    }
    let dot1 = find_char(&chars, 0, '.');
    if dot1 == len {
        return None;
    }
    let dot2 = find_char(&chars, dot1 + 1, '.');
    if dot2 == len {
        return None;
    }
    let dot3 = find_char(&chars, dot2 + 1, '.');
    if dot3 == len {
        return None;
    }
    let colon = find_char(&chars, dot3 + 1, ':');
    if colon == len {
        return None;
    }
    let a = read_octet(&chars, 0, dot1);
    let b = read_octet(&chars, dot1 + 1, dot2);
    let c = read_octet(&chars, dot2 + 1, dot3);
    let d = read_octet(&chars, dot3 + 1, colon);
    let port = read_number(&chars, colon + 1, len, 65535);
    if let (Some(a), Some(b), Some(c), Some(d), Some(port)) = (a, b, c, d, port) {
        let addr = Addr { ip: [a, b, c, d], port };
        assert(addr.ip@ =~= seq![a, b, c, d]);
        Some(addr)
    } else {
        None
    }
}

proof fn lemma_find_at(s: Seq<char>, i: int, p: int, c: char)
    requires
        0 <= i <= p < s.len(),
        s[p] == c,
        forall|k: int| i <= k < p ==> s[k] != c,
    ensures
        find(s, i, c) == p,
{
    lemma_find(s, i, c);
}

/// The notation of an address with all its parts.
pub open spec fn dotted(
    a: Seq<char>,
    b: Seq<char>,
    c: Seq<char>,
    d: Seq<char>,
    port: Seq<char>,
) -> Seq<char> {
    a + seq!['.'] + b + seq!['.'] + c + seq!['.'] + d + seq![':'] + port
}

/// Four octets and a port, written with their separators, are read back as the
/// values of the five numbers.
pub proof fn law_dotted_reads_back(
    a: Seq<char>,
    b: Seq<char>,
    c: Seq<char>,
    d: Seq<char>,
    port: Seq<char>,
)
    requires
        is_octet(a),
        is_octet(b),
        is_octet(c),
        is_octet(d),
        is_port(port),
    ensures
        addr_of(dotted(a, b, c, d, port)) == Some(
            AddrView {
                ip: seq![value(a) as u8, value(b) as u8, value(c) as u8, value(d) as u8],
                port: value(port) as u16,
            },
        ),
{
    let s = dotted(a, b, c, d, port);
    let dot1 = a.len() as int;
    let dot2 = dot1 + 1 + b.len();
    let dot3 = dot2 + 1 + c.len();
    let colon = dot3 + 1 + d.len();
    assert(s.subrange(0, dot1) =~= a);
    assert(s.subrange(dot1 + 1, dot2) =~= b);
    assert(s.subrange(dot2 + 1, dot3) =~= c);
    assert(s.subrange(dot3 + 1, colon) =~= d);
    assert(s.subrange(colon + 1, s.len() as int) =~= port);
    assert forall|k: int| 0 <= k < dot1 implies s[k] != '.' by {
        assert(is_digit(a[k]));
    }
    assert forall|k: int| dot1 + 1 <= k < dot2 implies s[k] != '.' by {
        assert(is_digit(b[k - dot1 - 1]));
    }
    assert forall|k: int| dot2 + 1 <= k < dot3 implies s[k] != '.' by {
        assert(is_digit(c[k - dot2 - 1]));
    }
    assert forall|k: int| dot3 + 1 <= k < colon implies s[k] != ':' by {
        assert(is_digit(d[k - dot3 - 1]));
    }
    lemma_find_at(s, 0, dot1, '.');
    lemma_find_at(s, dot1 + 1, dot2, '.');
    lemma_find_at(s, dot2 + 1, dot3, '.');
    lemma_find_at(s, dot3 + 1, colon, ':');
    assert(!is_digit(s[dot1]));
}

/// Whether `s` is four octets and a port with their separators.
pub open spec fn is_dotted(s: Seq<char>) -> bool {
    exists|a: Seq<char>, b: Seq<char>, c: Seq<char>, d: Seq<char>, port: Seq<char>|
        is_octet(a) && is_octet(b) && is_octet(c) && is_octet(d) && is_port(port) && s
            == #[trigger] dotted(a, b, c, d, port)
}

/// A text spells an address in one of the two notations, and in no other way.
pub proof fn law_two_notations(s: Seq<char>)
    ensures
        addr_of(s) is Some <==> is_port(s) || is_dotted(s),
{
    if is_dotted(s) {
        let (a, b, c, d, port) = choose|
            a: Seq<char>,
            b: Seq<char>,
            c: Seq<char>,
            d: Seq<char>,
            port: Seq<char>,
        |
            is_octet(a) && is_octet(b) && is_octet(c) && is_octet(d) && is_port(port) && s
                == #[trigger] dotted(a, b, c, d, port);
        law_dotted_reads_back(a, b, c, d, port);
    }
    if addr_of(s) is Some && !is_port(s) {
        let dot1 = find(s, 0, '.');
        let dot2 = find(s, dot1 + 1, '.');
        let dot3 = find(s, dot2 + 1, '.');
        let colon = find(s, dot3 + 1, ':');
        lemma_found(s, 0, '.');
        lemma_found(s, dot1 + 1, '.');
        lemma_found(s, dot2 + 1, '.');
        lemma_found(s, dot3 + 1, ':');
        let a = s.subrange(0, dot1);
        let b = s.subrange(dot1 + 1, dot2);
        let c = s.subrange(dot2 + 1, dot3);
        let d = s.subrange(dot3 + 1, colon);
        let port = s.subrange(colon + 1, s.len() as int);
        assert(s =~= dotted(a, b, c, d, port));
    }
}

proof fn lemma_found(s: Seq<char>, i: int, c: char)
    requires
        0 <= i,
    ensures
        i <= find(s, i, c),
        find(s, i, c) < s.len() ==> s[find(s, i, c)] == c,
{
    if i <= s.len() {
        lemma_find(s, i, c);
    }
}

/// A number in decimal notation, with no zero before it.
pub open spec fn decimal(n: int) -> Seq<char>
    decreases n,
{
    let digits = seq!['0', '1', '2', '3', '4', '5', '6', '7', '8', '9'];
    if n < 10 {
        seq![digits[n]]
    } else {
        decimal(n / 10).push(digits[n % 10])
    }
}

/// A number in decimal notation, with `zeros` zeros before it.
pub open spec fn padded(zeros: nat, n: int) -> Seq<char> {
    Seq::new(zeros, |i: int| '0') + decimal(n)
}

proof fn lemma_decimal(n: int)
    requires
        0 <= n,
    ensures
        is_number(decimal(n)),
        value(decimal(n)) == n,
        decimal(n).len() > 1 ==> decimal(n)[0] != '0',
        n > 0 ==> decimal(n)[0] != '0',
    decreases n,
{
    reveal_with_fuel(value, 2);
    if n < 10 {
        assert(decimal(n).drop_last() =~= Seq::empty());
        assert(is_digit(decimal(n)[0]));
    } else {
        lemma_decimal(n / 10);
        let s = decimal(n);
        let before = decimal(n / 10);
        assert(s.drop_last() =~= before);
        assert forall|k: int| 0 <= k < s.len() implies is_digit(#[trigger] s[k]) by {
            if k < before.len() {
                assert(s[k] == before[k]);
            }
        }
        assert(s[0] == before[0]);
    }
}

proof fn lemma_decimal_len(n: int)
    requires
        0 <= n < 1000,
    ensures
        decimal(n).len() <= 3,
{
    reveal_with_fuel(decimal, 4);
}

proof fn lemma_digit(c: char)
    requires
        is_digit(c),
    ensures
        seq!['0', '1', '2', '3', '4', '5', '6', '7', '8', '9'][c as u32 - '0' as u32] == c,
        c != '0' ==> c as u32 > '0' as u32,
{
    let n = c as u32;
    if n == 48 {
        assert(c == '0');
    } else if n == 49 {
        assert(c == '1');
    } else if n == 50 {
        assert(c == '2');
    } else if n == 51 {
        assert(c == '3');
    } else if n == 52 {
        assert(c == '4');
    } else if n == 53 {
        assert(c == '5');
    } else if n == 54 {
        assert(c == '6');
    } else if n == 55 {
        assert(c == '7');
    } else if n == 56 {
        assert(c == '8');
    } else {
        assert(c == '9');
    }
}

proof fn lemma_value_positive(s: Seq<char>)
    requires
        is_number(s),
        s[0] != '0',
    ensures
        value(s) > 0,
    decreases s.len(),
{
    assert(is_digit(s[0]));
    assert(is_digit(s.last()));
    lemma_digit(s[0]);
    if s.len() > 1 {
        assert forall|k: int| 0 <= k < s.drop_last().len() implies is_digit(
            #[trigger] s.drop_last()[k],
        ) by {
            assert(s.drop_last()[k] == s[k]);
        }
        lemma_value_positive(s.drop_last());
    } else {
        reveal_with_fuel(value, 2);
        assert(s.drop_last() =~= Seq::empty());
    }
}

/// A number that no zero precedes is the notation of its value.
proof fn lemma_number_is_decimal(s: Seq<char>)
    requires
        is_number(s),
        s.len() > 1 ==> s[0] != '0',
    ensures
        s == decimal(value(s)),
    decreases s.len(),
{
    let before = s.drop_last();
    assert(is_digit(s.last()));
    lemma_digit(s.last());
    if s.len() == 1 {
        reveal_with_fuel(value, 2);
        assert(before =~= Seq::empty());
        assert(s =~= decimal(value(s)));
    } else {
        assert forall|k: int| 0 <= k < before.len() implies is_digit(#[trigger] before[k]) by {
            assert(before[k] == s[k]);
        }
        lemma_number_is_decimal(before);
        lemma_value_positive(before);
        assert(value(s) / 10 == value(before));
        assert(s =~= decimal(value(s)));
    }
}

proof fn lemma_value_padded(zeros: Seq<char>, s: Seq<char>)
    requires
        forall|k: int| 0 <= k < zeros.len() ==> #[trigger] zeros[k] == '0',
    ensures
        value(zeros + s) == value(s),
    decreases zeros.len() + s.len(),
{
    let all = zeros + s;
    if s.len() > 0 {
        assert(all.drop_last() =~= zeros + s.drop_last());
        lemma_value_padded(zeros, s.drop_last());
    } else if zeros.len() > 0 {
        assert(all =~= zeros);
        assert(all.drop_last() =~= zeros.drop_last() + s);
        lemma_value_padded(zeros.drop_last(), s);
    } else {
        assert(all =~= s);
    }
}

proof fn lemma_padded(zeros: nat, n: int)
    requires
        0 <= n,
    ensures
        is_number(padded(zeros, n)),
        value(padded(zeros, n)) == n,
{
    let before = Seq::new(zeros, |i: int| '0');
    let s = padded(zeros, n);
    lemma_decimal(n);
    lemma_value_padded(before, decimal(n));
    assert forall|k: int| 0 <= k < s.len() implies is_digit(#[trigger] s[k]) by {
        if k >= zeros {
            assert(s[k] == decimal(n)[k - zeros]);
        }
    }
}

/// A number is the notation of its value with some zeros before it.
proof fn lemma_number_is_padded(s: Seq<char>) -> (zeros: nat)
    requires
        is_number(s),
    ensures
        s == padded(zeros, value(s)),
    decreases s.len(),
{
    if s.len() > 1 && s[0] == '0' {
        let rest = s.drop_first();
        assert forall|k: int| 0 <= k < rest.len() implies is_digit(#[trigger] rest[k]) by {
            assert(rest[k] == s[k + 1]);
        }
        let zeros = lemma_number_is_padded(rest);
        assert(s =~= seq!['0'] + rest);
        lemma_value_padded(seq!['0'], rest);
        assert(s =~= padded(zeros + 1, value(s)));
        zeros + 1
    } else {
        lemma_number_is_decimal(s);
        assert(s =~= padded(0, value(s)));
        0
    }
}

/// An address is read from the decimal notation of its four octets and its port, and
/// from nothing else but, where all octets are zero, the notation of the port alone. No
/// zero may precede an octet; any number of zeros may precede the port.
pub proof fn law_notation_of_addr(s: Seq<char>, a: u8, b: u8, c: u8, d: u8, port: u16)
    ensures
        addr_of(s) == Some(AddrView { ip: seq![a, b, c, d], port }) <==> {
            ||| a == 0 && b == 0 && c == 0 && d == 0 && exists|zeros: nat|
                s == #[trigger] padded(zeros, port as int)
            ||| exists|zeros: nat|
                s == decimal(a as int) + seq!['.'] + decimal(b as int) + seq!['.'] + decimal(
                    c as int,
                ) + seq!['.'] + decimal(d as int) + seq![':'] + #[trigger] padded(
                    zeros,
                    port as int,
                )
        },
        addr_of(s) matches Some(addr) ==> addr.ip.len() == 4,
{
    let v = AddrView { ip: seq![a, b, c, d], port };
    // what is written is read
    if a == 0 && b == 0 && c == 0 && d == 0 && exists|zeros: nat|
        s == #[trigger] padded(zeros, port as int) {
        let zeros = choose|zeros: nat| s == #[trigger] padded(zeros, port as int);
        lemma_padded(zeros, port as int);
        assert(addr_of(s)->0.ip =~= v.ip);
    }
    if exists|zeros: nat|
        s == dotted(
            decimal(a as int),
            decimal(b as int),
            decimal(c as int),
            decimal(d as int),
            #[trigger] padded(zeros, port as int),
        ) {
        let zeros = choose|zeros: nat|
            s == dotted(
                decimal(a as int),
                decimal(b as int),
                decimal(c as int),
                decimal(d as int),
                #[trigger] padded(zeros, port as int),
            );
        lemma_octet(a);
        lemma_octet(b);
        lemma_octet(c);
        lemma_octet(d);
        lemma_padded(zeros, port as int);
        law_dotted_reads_back(
            decimal(a as int),
            decimal(b as int),
            decimal(c as int),
            decimal(d as int),
            padded(zeros, port as int),
        );
        assert(addr_of(s)->0.ip =~= v.ip);
    }
    // what is read is written
    if addr_of(s) == Some(v) {
        assert(v.ip[0] == a && v.ip[1] == b && v.ip[2] == c && v.ip[3] == d);
        if is_port(s) {
            lemma_value_grows(s, 0);
            let ip = addr_of(s)->0.ip;
            assert(ip == seq![0u8, 0, 0, 0]);
            assert(ip[0] == 0 && ip[1] == 0 && ip[2] == 0 && ip[3] == 0);
            let zeros = lemma_number_is_padded(s);
            assert(s == padded(zeros, port as int));
        } else {
            law_two_notations(s);
            let (oa, ob, oc, od, op) = choose|
                oa: Seq<char>,
                ob: Seq<char>,
                oc: Seq<char>,
                od: Seq<char>,
                op: Seq<char>,
            |
                is_octet(oa) && is_octet(ob) && is_octet(oc) && is_octet(od) && is_port(op) && s
                    == #[trigger] dotted(oa, ob, oc, od, op);
            law_dotted_reads_back(oa, ob, oc, od, op);
            lemma_value_grows(oa, 0);
            lemma_value_grows(ob, 0);
            lemma_value_grows(oc, 0);
            lemma_value_grows(od, 0);
            lemma_value_grows(op, 0);
            let ip = addr_of(s)->0.ip;
            assert(ip == seq![
                value(oa) as u8,
                value(ob) as u8,
                value(oc) as u8,
                value(od) as u8,
            ]);
            assert(ip[0] == value(oa) as u8 && ip[1] == value(ob) as u8);
            assert(ip[2] == value(oc) as u8 && ip[3] == value(od) as u8);
            lemma_number_is_decimal(oa);
            lemma_number_is_decimal(ob);
            lemma_number_is_decimal(oc);
            lemma_number_is_decimal(od);
            let zeros = lemma_number_is_padded(op);
            assert(op == padded(zeros, port as int));
        }
    }
}

proof fn lemma_octet(n: u8)
    ensures
        is_octet(decimal(n as int)),
        value(decimal(n as int)) == n,
{
    lemma_decimal(n as int);
    lemma_decimal_len(n as int);
}

/// A text is read as an address exactly if it is the decimal notation of its octets and
/// its port, or of its port alone where all octets are zero.
pub proof fn law_read_addr(text: &str, r: Option<Addr>, a: u8, b: u8, c: u8, d: u8, port: u16)
    requires
        call_ensures(parse_addr, (text,), r),
    ensures
        r is Some && r->0.ip@ == seq![a, b, c, d] && r->0.port == port <==> {
            ||| a == 0 && b == 0 && c == 0 && d == 0 && exists|zeros: nat|
                text@ == #[trigger] padded(zeros, port as int)
            ||| exists|zeros: nat|
                text@ == decimal(a as int) + seq!['.'] + decimal(b as int) + seq!['.'] + decimal(
                    c as int,
                ) + seq!['.'] + decimal(d as int) + seq![':'] + #[trigger] padded(
                    zeros,
                    port as int,
                )
        },
{
    law_notation_of_addr(text@, a, b, c, d, port);
}

} // verus!
