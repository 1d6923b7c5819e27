use crate::error::MatchError;
use vstd::prelude::*;

verus! {

/// True for an ASCII decimal digit.
pub open spec fn is_digit(c: char) -> bool {
    '0' <= c && c <= '9'
}

/// The value of a digit character.
pub open spec fn digit_value(c: char) -> nat {
    (c as nat - '0' as nat) as nat
}

/// The value of a run of decimal digits, most significant first.
pub open spec fn digits_value(s: Seq<char>) -> nat
    decreases s.len(),
{
    if s.len() == 0 {
        0
    } else {
        digits_value(s.drop_last()) * 10 + digit_value(s.last())
    }
}

/// The end of the run of digits that starts at `i`.
pub open spec fn run_end(s: Seq<char>, i: int) -> int
    decreases s.len() - i,
{
    if 0 <= i < s.len() && is_digit(s[i]) {
        run_end(s, i + 1)
    } else {
        i
    }
}

/// A decimal field at `i`: at least one digit, with a value of at most `max`.
/// Gives the value and the index just past the field.
pub open spec fn field_at(s: Seq<char>, i: int, max: nat) -> Option<(nat, int)> {
    let e = run_end(s, i);
    let v = digits_value(s.subrange(i, e));
    if e > i && v <= max {
        Some((v, e))
    } else {
        None
    }
}

/// The fields of "a.b.c.d/n": four octets and a prefix width.
pub open spec fn cidr_fields(s: Seq<char>) -> Option<(nat, nat, nat, nat, nat)> {
    match field_at(s, 0, 255) {
        None => None,
        Some((a, e1)) => if e1 >= s.len() || s[e1] != '.' {
            None
        } else {
            match field_at(s, e1 + 1, 255) {
                None => None,
                Some((b, e2)) => if e2 >= s.len() || s[e2] != '.' {
                    None
                } else {
                    match field_at(s, e2 + 1, 255) {
                        None => None,
                        Some((c, e3)) => if e3 >= s.len() || s[e3] != '.' {
                            None
                        } else {
                            match field_at(s, e3 + 1, 255) {
                                None => None,
                                Some((d, e4)) => if e4 >= s.len() || s[e4] != '/' {
                                    None
                                } else {
                                    match field_at(s, e4 + 1, 32) {
                                        None => None,
                                        Some((n, e5)) => if e5 != s.len() {
                                            None
                                        } else {
                                            Some((a, b, c, d, n))
                                        },
                                    }
                                },
                            }
                        },
                    }
                },
            }
        },
    }
}

/// The run of digits from `i` ends where `run_end` says, and holds digits only.
proof fn lemma_run_end(s: Seq<char>, i: int)
    requires
        0 <= i <= s.len(),
    ensures
        i <= run_end(s, i) <= s.len(),
        forall|j: int| i <= j < run_end(s, i) ==> is_digit(#[trigger] s[j]),
        run_end(s, i) == s.len() || !is_digit(s[run_end(s, i)]),
    decreases s.len() - i,
{
    if i < s.len() && is_digit(s[i]) {
        lemma_run_end(s, i + 1);
    }
}

/// One more digit appends a decimal place.
proof fn lemma_digits_step(s: Seq<char>, i: int, k: int)
    requires
        0 <= i <= k < s.len(),
    ensures
        digits_value(s.subrange(i, k + 1)) == digits_value(s.subrange(i, k)) * 10 + digit_value(
            s[k],
        ),
{
    assert(s.subrange(i, k + 1).drop_last() =~= s.subrange(i, k));
}

/// A longer run of digits is worth at least as much.
proof fn lemma_digits_grow(s: Seq<char>, i: int, k: int, e: int)
    requires
        0 <= i <= k <= e <= s.len(),
    ensures
        digits_value(s.subrange(i, e)) >= digits_value(s.subrange(i, k)),
    decreases e - k,
{
    if k < e {
        lemma_digits_grow(s, i, k, e - 1);
        lemma_digits_step(s, i, e - 1);
    }
}

/// Reads the decimal field at `i`; `None` where it is empty or over `max`.
fn parse_field(s: &str, n: usize, i: usize, max: u32) -> (r: Option<(u32, usize)>)
    requires
        n == s@.len(),
        i <= n,
        max <= 255,
    ensures
        match r {
            None => field_at(s@, i as int, max as nat) is None,
            Some((v, e)) => field_at(s@, i as int, max as nat) == Some((v as nat, e as int)) && v
                <= max && i < e <= n,
        },
{
    let mut k: usize = i;
    let mut v: u32 = 0;
    proof {
        assert(s@.subrange(i as int, i as int) =~= Seq::<char>::empty());
    }
    while k < n && '0' <= s.get_char(k) && s.get_char(k) <= '9'
        invariant
            i <= k <= n,
            n == s@.len(),
            max <= 255,
            v as nat == digits_value(s@.subrange(i as int, k as int)),
            v <= max,
            run_end(s@, i as int) == run_end(s@, k as int),
        decreases n - k,
    {
        let c = s.get_char(k);
        let d: u32 = (c as u32) - ('0' as u32);
        proof {
            lemma_digits_step(s@, i as int, k as int);
        }
        if v * 10 + d > max {
            proof {
                lemma_run_end(s@, k as int + 1);
                lemma_digits_grow(s@, i as int, k as int + 1, run_end(s@, i as int));
            }
            return None;
        }
        v = v * 10 + d;
        k = k + 1;
    }
    proof {
        lemma_run_end(s@, k as int);
    }
    if k == i {
        None
    } else {
        Some((v, k))
    }
}

/// The 32-bit address of four octets, the first one most significant.
pub open spec fn address_of(a: nat, b: nat, c: nat, d: nat) -> u32 {
    (a * 16777216 + b * 65536 + c * 256 + d) as u32
}

/// The mask whose `n` highest bits are set.
pub open spec fn mask_of(n: u32) -> u32 {
    if n == 0 {
        0
    } else {
        0xffff_ffffu32 << ((32 - n) as u32)
    }
}

/// The character of a decimal digit.
pub open spec fn digit_char(k: nat) -> char {
    if k == 0 {
        '0'
    } else if k == 1 {
        '1'
    } else if k == 2 {
        '2'
    } else if k == 3 {
        '3'
    } else if k == 4 {
        '4'
    } else if k == 5 {
        '5'
    } else if k == 6 {
        '6'
    } else if k == 7 {
        '7'
    } else if k == 8 {
        '8'
    } else {
        '9'
    }
}

/// The decimal text of a number, without leading zeros.
pub open spec fn decimal(x: nat) -> Seq<char>
    decreases x,
{
    if x < 10 {
        seq![digit_char(x)]
    } else {
        decimal(x / 10).push(digit_char(x % 10))
    }
}

/// The text "a.b.c.d/n".
pub open spec fn cidr_text(a: nat, b: nat, c: nat, d: nat, n: nat) -> Seq<char> {
    decimal(a) + seq!['.'] + decimal(b) + seq!['.'] + decimal(c) + seq!['.'] + decimal(d) + seq![
        '/',
    ] + decimal(n)
}

/// A digit's character is a digit worth it.
proof fn lemma_digit_char(k: nat)
    requires
        k < 10,
    ensures
        is_digit(digit_char(k)),
        digit_value(digit_char(k)) == k,
{
}

/// The decimal text is a run of digits worth the number.
proof fn lemma_decimal(x: nat)
    ensures
        decimal(x).len() >= 1,
        forall|j: int| 0 <= j < decimal(x).len() ==> is_digit(#[trigger] decimal(x)[j]),
        digits_value(decimal(x)) == x,
    decreases x,
{
    lemma_digit_char(x % 10);
    if x >= 10 {
        lemma_decimal(x / 10);
        assert(decimal(x).drop_last() =~= decimal(x / 10));
        assert(x == (x / 10) * 10 + x % 10);
        assert(decimal(x).last() == digit_char(x % 10));
        assert(digits_value(decimal(x)) == digits_value(decimal(x / 10)) * 10 + digit_value(
            digit_char(x % 10),
        ));
    } else {
        assert(x % 10 == x);
        assert(decimal(x).drop_last() =~= Seq::<char>::empty());
        assert(digits_value(decimal(x)) == digits_value(Seq::<char>::empty()) * 10 + digit_value(
            digit_char(x),
        ));
    }
}

/// A run of digits from `i` up to a non-digit or the end ends at `e`.
proof fn lemma_run_to(s: Seq<char>, i: int, e: int)
    requires
        0 <= i <= e <= s.len(),
        forall|j: int| i <= j < e ==> is_digit(#[trigger] s[j]),
        e == s.len() || !is_digit(s[e]),
    ensures
        run_end(s, i) == e,
    decreases e - i,
{
    if i < e {
        lemma_run_to(s, i + 1, e);
    }
}

/// The decimal field of `x`, at `i` in `s`, reads back as `x`.
proof fn lemma_field(s: Seq<char>, i: int, x: nat, max: nat)
    requires
        0 <= i,
        i + decimal(x).len() <= s.len(),
        s.subrange(i, i + decimal(x).len()) == decimal(x),
        i + decimal(x).len() == s.len() || !is_digit(s[i + decimal(x).len()]),
        x <= max,
    ensures
        field_at(s, i, max) == Some((x, i + decimal(x).len())),
{
    lemma_decimal(x);
    let e = i + decimal(x).len();
    assert forall|j: int| i <= j < e implies is_digit(#[trigger] s[j]) by {
        assert(s[j] == s.subrange(i, e)[j - i]);
    }
    lemma_run_to(s, i, e);
}

/// Reading "a.b.c.d/n" back gives the octets and the width it was written
/// from, so the address and the mask, and hence the network, are those of
/// the fields; and the address gives the octets back, first one highest.
pub proof fn lemma_cidr_round_trip(a: nat, b: nat, c: nat, d: nat, n: nat)
    requires
        a <= 255,
        b <= 255,
        c <= 255,
        d <= 255,
        n <= 32,
    ensures
        cidr_fields(cidr_text(a, b, c, d, n)) == Some((a, b, c, d, n)),
        cidr_network(cidr_text(a, b, c, d, n)) == Some(address_of(a, b, c, d) & mask_of(n as u32)),
        address_of(a, b, c, d) / 16777216 == a,
        address_of(a, b, c, d) / 65536 % 256 == b,
        address_of(a, b, c, d) / 256 % 256 == c,
        address_of(a, b, c, d) % 256 == d,
{
    let s = cidr_text(a, b, c, d, n);
    let la = decimal(a).len() as int;
    let lb = decimal(b).len() as int;
    let lc = decimal(c).len() as int;
    let ld = decimal(d).len() as int;
    let ln = decimal(n).len() as int;
    let e1 = la;
    let e2 = e1 + 1 + lb;
    let e3 = e2 + 1 + lc;
    let e4 = e3 + 1 + ld;
    assert(s.len() == e4 + 1 + ln);
    assert(s[e1] == '.' && s[e2] == '.' && s[e3] == '.' && s[e4] == '/');
    assert(s.subrange(0, e1) =~= decimal(a));
    assert(s.subrange(e1 + 1, e2) =~= decimal(b));
    assert(s.subrange(e2 + 1, e3) =~= decimal(c));
    assert(s.subrange(e3 + 1, e4) =~= decimal(d));
    assert(s.subrange(e4 + 1, s.len() as int) =~= decimal(n));
    lemma_field(s, 0, a, 255);
    lemma_field(s, e1 + 1, b, 255);
    lemma_field(s, e2 + 1, c, 255);
    lemma_field(s, e3 + 1, d, 255);
    lemma_field(s, e4 + 1, n, 32);
    assert(address_of(a, b, c, d) == a * 16777216 + b * 65536 + c * 256 + d);
    assert(address_of(a, b, c, d) / 16777216 == a) by (nonlinear_arith)
        requires
            address_of(a, b, c, d) == a * 16777216 + b * 65536 + c * 256 + d,
            b <= 255,
            c <= 255,
            d <= 255,
    ;
    assert(address_of(a, b, c, d) / 65536 % 256 == b) by (nonlinear_arith)
        requires
            address_of(a, b, c, d) == a * 16777216 + b * 65536 + c * 256 + d,
            a <= 255,
            b <= 255,
            c <= 255,
            d <= 255,
    ;
    assert(address_of(a, b, c, d) / 256 % 256 == c) by (nonlinear_arith)
        requires
            address_of(a, b, c, d) == a * 16777216 + b * 65536 + c * 256 + d,
            a <= 255,
            b <= 255,
            c <= 255,
            d <= 255,
    ;
    assert(address_of(a, b, c, d) % 256 == d) by (nonlinear_arith)
        requires
            address_of(a, b, c, d) == a * 16777216 + b * 65536 + c * 256 + d,
            a <= 255,
            b <= 255,
            c <= 255,
            d <= 255,
    ;
}

/// The number of set bits at the top of the mask, among its `k` highest.
pub open spec fn leading_ones_in(m: u32, k: nat) -> nat
    decreases k,
{
    if k == 0 || m & 0x8000_0000u32 == 0 {
        0
    } else {
        1 + leading_ones_in(m << 1u32, (k - 1) as nat)
    }
}

/// The number of set bits at the top of the mask.
pub open spec fn leading_ones(m: u32) -> nat {
    leading_ones_in(m, 32)
}

/// The octets of a 32-bit address, first one highest.
pub open spec fn octets_of(x: u32) -> (nat, nat, nat, nat) {
    (
        (x / 16777216) as nat,
        (x / 65536 % 256) as nat,
        (x / 256 % 256) as nat,
        (x % 256) as nat,
    )
}

/// Shifting a mask of `n` bits left by one leaves a mask of `n - 1` bits.
proof fn lemma_mask_shift(n: u32)
    requires
        1 <= n <= 32,
    ensures
        mask_of(n) & 0x8000_0000u32 != 0,
        mask_of(n) << 1u32 == mask_of((n - 1) as u32),
{
    let s: u32 = (32 - n) as u32;
    if n == 1 {
        assert((0xffff_ffffu32 << 31u32) & 0x8000_0000u32 != 0) by (bit_vector);
        assert((0xffff_ffffu32 << 31u32) << 1u32 == 0) by (bit_vector);
    } else {
        assert((0xffff_ffffu32 << s) & 0x8000_0000u32 != 0) by (bit_vector)
            requires
                s < 32,
        ;
        assert((0xffff_ffffu32 << s) << 1u32 == 0xffff_ffffu32 << ((s + 1) as u32)) by (bit_vector)
            requires
                s < 31,
        ;
    }
}

/// The mask of `n` bits has exactly `n` leading ones, among any `k >= n`
/// of its highest bits.
proof fn lemma_mask_leading_ones(n: u32, k: nat)
    requires
        n <= 32,
        n <= k,
    ensures
        leading_ones_in(mask_of(n), k) == n,
    decreases n,
{
    if n == 0 {
        assert(0u32 & 0x8000_0000u32 == 0) by (bit_vector);
    } else {
        lemma_mask_shift(n);
        lemma_mask_leading_ones((n - 1) as u32, (k - 1) as nat);
    }
}

/// The mask of `n` bits has its `n` highest bits set and the others clear,
/// and `n` leading ones: the width reads back from the mask.
pub proof fn lemma_mask_width(n: u32)
    requires
        n <= 32,
    ensures
        leading_ones(mask_of(n)) == n,
        forall|i: u32| i < 32 ==> ((mask_of(n) >> i) & 1u32 == 1u32 <==> i >= 32 - n),
{
    lemma_mask_leading_ones(n, 32);
    if n == 0 {
        assert forall|i: u32| i < 32 implies !((0u32 >> i) & 1u32 == 1u32) by {
            assert((0u32 >> i) & 1u32 == 0u32) by (bit_vector);
        }
    } else {
        let s: u32 = (32 - n) as u32;
        assert forall|i: u32| i < 32 implies (((0xffff_ffffu32 << s) >> i) & 1u32 == 1u32 <==> i
            >= s) by {
            assert(((0xffff_ffffu32 << s) >> i) & 1u32 == 1u32 <==> i >= s) by (bit_vector)
                requires
                    s < 32,
                    i < 32,
            ;
        }
    }
}

/// A 32-bit address is made of its octets.
proof fn lemma_octets_of(x: u32)
    ensures
        octets_of(x).0 <= 255,
        octets_of(x).1 <= 255,
        octets_of(x).2 <= 255,
        octets_of(x).3 <= 255,
        address_of(octets_of(x).0, octets_of(x).1, octets_of(x).2, octets_of(x).3) == x,
{
    let v = x as int;
    assert(v == (v / 16777216) * 16777216 + (v / 65536 % 256) * 65536 + (v / 256 % 256) * 256 + v
        % 256) by (nonlinear_arith)
        requires
            0 <= v,
    ;
    assert(v / 16777216 <= 255) by (nonlinear_arith)
        requires
            0 <= v < 0x1_0000_0000,
    ;
}

/// Reading "a.b.c.d/n", writing its network back as dotted octets with the
/// mask's count of leading ones as the width, and reading that again gives
/// the same network and the same mask.
pub proof fn lemma_cidr_network_round_trip(a: nat, b: nat, c: nat, d: nat, n: nat)
    requires
        a <= 255,
        b <= 255,
        c <= 255,
        d <= 255,
        n <= 32,
    ensures
        ({
            let t = address_of(a, b, c, d) & mask_of(n as u32);
            let (p, q, r, u) = octets_of(t);
            let w = leading_ones(mask_of(n as u32));
            &&& cidr_network(cidr_text(a, b, c, d, n)) == Some(t)
            &&& w == n
            &&& cidr_fields(cidr_text(p, q, r, u, w)) == Some((p, q, r, u, n))
            &&& mask_of(w as u32) == mask_of(n as u32)
            &&& cidr_network(cidr_text(p, q, r, u, w)) == Some(t)
        }),
{
    let m = mask_of(n as u32);
    let t = address_of(a, b, c, d) & m;
    lemma_cidr_round_trip(a, b, c, d, n);
    lemma_mask_width(n as u32);
    lemma_octets_of(t);
    let (p, q, r, u) = octets_of(t);
    lemma_cidr_round_trip(p, q, r, u, n);
    let x: u32 = address_of(a, b, c, d);
    assert((x & m) & m == x & m) by (bit_vector);
    assert(address_of(p, q, r, u) & m == t);
}

/// An address seen on an interface: an IPv4 address, as a number whose
/// highest byte is the first octet, or an address of another family.
#[derive(Debug, Clone, Copy, PartialEq, Eq, Structural)]
pub enum HostAddress {
    /// An IPv4 address.
    Inet(u32),
    /// An address of another family.
    Other,
}

/// The IPv4 address, or zero for another family.
pub open spec fn inet_or_zero(a: HostAddress) -> u32 {
    match a {
        HostAddress::Inet(x) => x,
        HostAddress::Other => 0,
    }
}

/// The network part of "a.b.c.d/n", where the text is one.
pub open spec fn cidr_network(s: Seq<char>) -> Option<u32> {
    match cidr_fields(s) {
        Some((a, b, c, d, n)) => Some(address_of(a, b, c, d) & mask_of(n as u32)),
        None => None,
    }
}

/// An IPv4 address with its netmask. Two values are equal when their
/// network parts (the address with the host bits cleared) are equal,
/// whatever their host bits or mask widths.
pub struct IPv4NetworkAddress {
    addr: u32,
    mask: u32,
    network: u32,
}

impl IPv4NetworkAddress {
    /// The address.
    pub closed spec fn addr_spec(&self) -> u32 {
        self.addr
    }

    /// The netmask.
    pub closed spec fn mask_spec(&self) -> u32 {
        self.mask
    }

    /// The network part.
    pub closed spec fn network_spec(&self) -> u32 {
        self.network
    }

    /// The network part is the address under the mask.
    pub open spec fn wf(&self) -> bool {
        self.network_spec() == self.addr_spec() & self.mask_spec()
    }

    /// Builds the value from an address and a netmask.
    pub fn new(addr: u32, mask: u32) -> (r: IPv4NetworkAddress)
        ensures
            r.wf(),
            r.addr_spec() == addr,
            r.mask_spec() == mask,
    {
        IPv4NetworkAddress { addr, mask, network: addr & mask }
    }

    /// Builds the value from an address and a netmask seen on an interface;
    /// an address or netmask of another family counts as zero.
    pub fn from_sockaddr(addr: &HostAddress, mask: &HostAddress) -> (r: Result<
        IPv4NetworkAddress,
        MatchError,
    >)
        ensures
            r is Ok,
            r->Ok_0.wf(),
            r->Ok_0.addr_spec() == inet_or_zero(*addr),
            r->Ok_0.mask_spec() == inet_or_zero(*mask),
    {
        let a = match addr {
            HostAddress::Inet(x) => *x,
            HostAddress::Other => 0,
        };
        let m = match mask {
            HostAddress::Inet(x) => *x,
            HostAddress::Other => 0,
        };
        Ok(IPv4NetworkAddress::new(a, m))
    }

    /// Parses "a.b.c.d/n": four decimal octets of at most 255 and a prefix
    /// width of at most 32. The address has the first octet in its highest
    /// byte; the mask has its `n` highest bits set.
    pub fn from_cidr(cidr: &str) -> (r: Result<IPv4NetworkAddress, MatchError>)
        ensures
            match cidr_fields(cidr@) {
                None => r == Err::<IPv4NetworkAddress, MatchError>(MatchError::InvalidCidr),
                Some((a, b, c, d, n)) => r is Ok && r->Ok_0.wf() && r->Ok_0.addr_spec()
                    == address_of(a, b, c, d) && r->Ok_0.mask_spec() == mask_of(n as u32),
            },
    {
        let len = cidr.unicode_len();
        let (a, e1) = match parse_field(cidr, len, 0, 255) {
            Some(f) => f,
            None => return Err(MatchError::InvalidCidr),
        };
        if e1 >= len || cidr.get_char(e1) != '.' {
            return Err(MatchError::InvalidCidr);
        }
        let (b, e2) = match parse_field(cidr, len, e1 + 1, 255) {
            Some(f) => f,
            None => return Err(MatchError::InvalidCidr),
        };
        if e2 >= len || cidr.get_char(e2) != '.' {
            return Err(MatchError::InvalidCidr);
        }
        let (c, e3) = match parse_field(cidr, len, e2 + 1, 255) {
            Some(f) => f,
            None => return Err(MatchError::InvalidCidr),
        };
        if e3 >= len || cidr.get_char(e3) != '.' {
            return Err(MatchError::InvalidCidr);
        }
        let (d, e4) = match parse_field(cidr, len, e3 + 1, 255) {
            Some(f) => f,
            None => return Err(MatchError::InvalidCidr),
        };
        if e4 >= len || cidr.get_char(e4) != '/' {
            return Err(MatchError::InvalidCidr);
        }
        let (width, e5) = match parse_field(cidr, len, e4 + 1, 32) {
            Some(f) => f,
            None => return Err(MatchError::InvalidCidr),
        };
        if e5 != len {
            return Err(MatchError::InvalidCidr);
        }
        let addr: u32 = a * 16777216 + b * 65536 + c * 256 + d;
        let mask: u32 = if width == 0 {
            0
        } else {
            0xffff_ffffu32 << (32 - width)
        };
        Ok(IPv4NetworkAddress::new(addr, mask))
    }

    /// The address.
    pub fn addr(&self) -> (r: u32)
        ensures
            r == self.addr_spec(),
    {
        self.addr
    }

    /// The netmask.
    pub fn mask(&self) -> (r: u32)
        ensures
            r == self.mask_spec(),
    {
        self.mask
    }

    /// The network part.
    pub fn network(&self) -> (r: u32)
        ensures
            r == self.network_spec(),
    {
        self.network
    }
}

impl PartialEq for IPv4NetworkAddress {
    fn eq(&self, other: &IPv4NetworkAddress) -> (r: bool) {
        self.network == other.network
    }
}

impl vstd::std_specs::cmp::PartialEqSpecImpl for IPv4NetworkAddress {
    open spec fn obeys_eq_spec() -> bool {
        true
    }

    open spec fn eq_spec(&self, other: &IPv4NetworkAddress) -> bool {
        self.network_spec() == other.network_spec()
    }
}

} // verus!
