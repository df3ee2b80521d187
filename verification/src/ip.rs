//! IP address values and netmask derivation.
//!
//! An address is held as its numeric value: 32 bits for IPv4, 128 bits for
//! IPv6, both in network (big-endian) reading order. A netmask derived from an
//! on-link prefix length has exactly that many leading one-bits; lengths past
//! the address width clamp to the all-ones mask.

use vstd::prelude::*;
use vstd::arithmetic::power2::pow2;
use vstd::string::StringExecFns;

verus! {

/// A single IP address, either family.
#[derive(Clone, Copy, Debug, Hash)]
pub enum IpAddress {
    /// IPv4: the four octets read as one big-endian 32-bit value.
    V4(u32),
    /// IPv6: the sixteen bytes read as one big-endian 128-bit value.
    V6(u128),
}

impl PartialEq for IpAddress {
    fn eq(&self, other: &Self) -> (r: bool)
        ensures
            r == (self == other),
    {
        match (self, other) {
            (IpAddress::V4(a), IpAddress::V4(b)) => a == b,
            (IpAddress::V6(a), IpAddress::V6(b)) => a == b,
            _ => false,
        }
    }
}

impl Eq for IpAddress {}

impl vstd::std_specs::cmp::PartialEqSpecImpl for IpAddress {
    open spec fn obeys_eq_spec() -> bool {
        true
    }

    open spec fn eq_spec(&self, other: &Self) -> bool {
        self == other
    }
}

/// The IPv4 mask whose top `min(length, 32)` bits are ones.
pub open spec fn spec_ipv4_netmask(length: u8) -> u32 {
    if length == 0 {
        0u32
    } else if length >= 32 {
        0xFFFF_FFFFu32
    } else {
        0xFFFF_FFFFu32 << ((32 - length) as u32)
    }
}

/// The IPv6 mask whose top `min(length, 128)` bits are ones.
pub open spec fn spec_ipv6_netmask(length: u8) -> u128 {
    if length == 0 {
        0u128
    } else if length >= 128 {
        0xFFFF_FFFF_FFFF_FFFF_FFFF_FFFF_FFFF_FFFFu128
    } else {
        0xFFFF_FFFF_FFFF_FFFF_FFFF_FFFF_FFFF_FFFFu128 << ((128 - length) as u128)
    }
}

/// Derives an IPv4 netmask from a prefix length; lengths above 32 clamp to
/// the all-ones mask.
pub fn ipv4_netmask_from(length: u8) -> (r: u32)
    ensures
        r == spec_ipv4_netmask(length),
{
    if length == 0 {
        0
    } else if length >= 32 {
        0xFFFF_FFFF
    } else {
        0xFFFF_FFFFu32 << ((32 - length) as u32)
    }
}

/// Derives an IPv6 netmask from a prefix length; lengths above 128 clamp to
/// the all-ones mask.
pub fn ipv6_netmask_from(length: u8) -> (r: u128)
    ensures
        r == spec_ipv6_netmask(length),
{
    if length == 0 {
        0
    } else if length >= 128 {
        0xFFFF_FFFF_FFFF_FFFF_FFFF_FFFF_FFFF_FFFF
    } else {
        0xFFFF_FFFF_FFFF_FFFF_FFFF_FFFF_FFFF_FFFFu128 << ((128 - length) as u128)
    }
}

/// The derived IPv4 netmask, wrapped as an address value.
pub fn ipv4_netmask_address_from(length: u8) -> (r: IpAddress)
    ensures
        r == IpAddress::V4(spec_ipv4_netmask(length)),
{
    IpAddress::V4(ipv4_netmask_from(length))
}

/// The derived IPv6 netmask, wrapped as an address value.
pub fn ipv6_netmask_address_from(length: u8) -> (r: IpAddress)
    ensures
        r == IpAddress::V6(spec_ipv6_netmask(length)),
{
    IpAddress::V6(ipv6_netmask_from(length))
}

/// The derived IPv4 netmask has exactly `min(length, 32)` leading one-bits:
/// bit `i` counted from the most significant end is one if and only if
/// `i < length`.
pub proof fn lemma_ipv4_netmask_leading_ones(length: u8, i: u32)
    requires
        i < 32,
    ensures
        (spec_ipv4_netmask(length) >> ((31 - i) as u32)) & 1 == (
        if i < length {
            1u32
        } else {
            0u32
        }),
{
    if length == 0 {
        assert((0u32 >> ((31 - i) as u32)) & 1 == 0) by (bit_vector);
    } else if length >= 32 {
        assert(i < 32 ==> (0xFFFF_FFFFu32 >> ((31 - i) as u32)) & 1 == 1) by (bit_vector);
    } else {
        let len = length;
        assert(0 < len < 32 && i < 32 ==> ((0xFFFF_FFFFu32 << ((32 - len) as u32)) >> ((31
            - i) as u32)) & 1 == (
        if i < len {
            1u32
        } else {
            0u32
        })) by (bit_vector);
    }
}

/// The derived IPv6 netmask has exactly `min(length, 128)` leading one-bits:
/// bit `i` counted from the most significant end is one if and only if
/// `i < length`.
pub proof fn lemma_ipv6_netmask_leading_ones(length: u8, i: u32)
    requires
        i < 128,
    ensures
        (spec_ipv6_netmask(length) >> ((127 - i) as u128)) & 1 == (
        if i < length {
            1u128
        } else {
            0u128
        }),
{
    if length == 0 {
        assert(i < 128 ==> (0u128 >> ((127 - i) as u128)) & 1 == 0) by (bit_vector);
    } else if length >= 128 {
        assert(i < 128 ==> (0xFFFF_FFFF_FFFF_FFFF_FFFF_FFFF_FFFF_FFFFu128 >> ((127
            - i) as u128)) & 1 == 1) by (bit_vector);
    } else {
        let len = length;
        assert(0 < len < 128 && i < 128 ==> ((0xFFFF_FFFF_FFFF_FFFF_FFFF_FFFF_FFFF_FFFFu128 << ((
        128 - len) as u128)) >> ((127 - i) as u128)) & 1 == (
        if i < len {
            1u128
        } else {
            0u128
        })) by (bit_vector);
    }
}

/// True when the address is a loopback address: 127.0.0.0/8 for IPv4, `::1`
/// for IPv6.
pub open spec fn spec_ip_is_loopback(ip: IpAddress) -> bool {
    match ip {
        IpAddress::V4(v) => v >> 24u32 == 127,
        IpAddress::V6(v) => v == 1,
    }
}

/// True when the address is a multicast address: 224.0.0.0/4 for IPv4,
/// `ff00::/8` for IPv6.
pub open spec fn spec_ip_is_multicast(ip: IpAddress) -> bool {
    match ip {
        IpAddress::V4(v) => 224 <= v >> 24u32 <= 239,
        IpAddress::V6(v) => v >> 120u128 == 0xFF,
    }
}

impl IpAddress {
    /// Whether this address is a loopback address.
    pub fn is_loopback(&self) -> (r: bool)
        ensures
            r == spec_ip_is_loopback(*self),
    {
        match self {
            IpAddress::V4(v) => *v >> 24u32 == 127,
            IpAddress::V6(v) => *v == 1,
        }
    }

    /// Whether this address is a multicast address.
    pub fn is_multicast(&self) -> (r: bool)
        ensures
            r == spec_ip_is_multicast(*self),
    {
        match self {
            IpAddress::V4(v) => {
                let top = *v >> 24u32;
                224 <= top && top <= 239
            },
            IpAddress::V6(v) => *v >> 120u128 == 0xFF,
        }
    }
}

/// The decimal digit character for `d`.
pub open spec fn spec_digit_char(d: int) -> char {
    if d == 0 {
        '0'
    } else if d == 1 {
        '1'
    } else if d == 2 {
        '2'
    } else if d == 3 {
        '3'
    } else if d == 4 {
        '4'
    } else if d == 5 {
        '5'
    } else if d == 6 {
        '6'
    } else if d == 7 {
        '7'
    } else if d == 8 {
        '8'
    } else {
        '9'
    }
}

/// The lowercase hexadecimal digit character for `d`.
pub open spec fn spec_hex_char(d: int) -> char {
    if d < 10 {
        spec_digit_char(d)
    } else if d == 10 {
        'a'
    } else if d == 11 {
        'b'
    } else if d == 12 {
        'c'
    } else if d == 13 {
        'd'
    } else if d == 14 {
        'e'
    } else {
        'f'
    }
}

/// Decimal text of a byte, without leading zeros.
pub open spec fn spec_dec_u8(n: u8) -> Seq<char> {
    if n >= 100 {
        seq![
            spec_digit_char((n / 100) as int),
            spec_digit_char(((n / 10) % 10) as int),
            spec_digit_char((n % 10) as int),
        ]
    } else if n >= 10 {
        seq![spec_digit_char((n / 10) as int), spec_digit_char((n % 10) as int)]
    } else {
        seq![spec_digit_char(n as int)]
    }
}

/// Lowercase hexadecimal text of a 16-bit group, without leading zeros.
pub open spec fn spec_hex_u16(g: u16) -> Seq<char> {
    if g >= 0x1000 {
        seq![
            spec_hex_char((g >> 12u16) as int),
            spec_hex_char(((g >> 8u16) & 0xF) as int),
            spec_hex_char(((g >> 4u16) & 0xF) as int),
            spec_hex_char((g & 0xF) as int),
        ]
    } else if g >= 0x100 {
        seq![
            spec_hex_char(((g >> 8u16) & 0xF) as int),
            spec_hex_char(((g >> 4u16) & 0xF) as int),
            spec_hex_char((g & 0xF) as int),
        ]
    } else if g >= 0x10 {
        seq![spec_hex_char(((g >> 4u16) & 0xF) as int), spec_hex_char((g & 0xF) as int)]
    } else {
        seq![spec_hex_char((g & 0xF) as int)]
    }
}

/// Octet `k` (0 = most significant) of an IPv4 value.
pub open spec fn spec_v4_octet(v: u32, k: int) -> u8 {
    ((v >> (((3 - k) * 8) as u32)) & 0xFF) as u8
}

/// Dotted-decimal text of an IPv4 value.
pub open spec fn spec_v4_text(v: u32) -> Seq<char> {
    spec_dec_u8(spec_v4_octet(v, 0)) + seq!['.'] + spec_dec_u8(spec_v4_octet(v, 1)) + seq!['.']
        + spec_dec_u8(spec_v4_octet(v, 2)) + seq!['.'] + spec_dec_u8(spec_v4_octet(v, 3))
}

/// 16-bit group `k` (0 = most significant) of an IPv6 value.
pub open spec fn spec_v6_group(v: u128, k: int) -> u16 {
    ((v >> (((7 - k) * 16) as u128)) & 0xFFFF) as u16
}

/// The eight 16-bit groups of an IPv6 value, most significant first.
pub open spec fn spec_v6_groups(v: u128) -> Seq<u16> {
    Seq::new(8, |k: int| spec_v6_group(v, k))
}

/// Length of the run of zero groups starting at position `i`.
pub open spec fn zero_run_len(gs: Seq<u16>, i: int) -> int
    decreases gs.len() - i,
{
    if i < 0 || i >= gs.len() || gs[i] != 0 {
        0
    } else {
        1 + zero_run_len(gs, i + 1)
    }
}

/// The leftmost longest run of zero groups at or after position `i`, as
/// `(start, length)`; `(i, 0)` when every group from `i` on is nonzero.
pub open spec fn spec_best_zero_run(gs: Seq<u16>, i: int) -> (int, int)
    decreases gs.len() - i,
{
    if i >= gs.len() {
        (i, 0)
    } else {
        let cur = zero_run_len(gs, i);
        let rest = spec_best_zero_run(gs, i + 1);
        if cur >= rest.1 {
            (i, cur)
        } else {
            rest
        }
    }
}

/// Colon-separated lowercase hexadecimal text of a group list.
pub open spec fn spec_join_groups(gs: Seq<u16>) -> Seq<char>
    decreases gs.len(),
{
    if gs.len() == 0 {
        Seq::empty()
    } else if gs.len() == 1 {
        spec_hex_u16(gs[0])
    } else {
        spec_join_groups(gs.drop_last()) + seq![':'] + spec_hex_u16(gs.last())
    }
}

/// True when the IPv6 value is an IPv4-mapped address, `::ffff:a.b.c.d`.
pub open spec fn spec_v6_is_v4_mapped(v: u128) -> bool {
    v >> 32u128 == 0xFFFF
}

/// Text of an IPv6 value: an IPv4-mapped address shows its embedded dotted
/// quad; otherwise the longest (leftmost) run of at least two zero groups
/// is elided as `::`, or all eight groups appear.
pub open spec fn spec_v6_text(v: u128) -> Seq<char> {
    if spec_v6_is_v4_mapped(v) {
        "::ffff:"@ + spec_v4_text((v & 0xFFFF_FFFF) as u32)
    } else {
        let gs = spec_v6_groups(v);
        let run = spec_best_zero_run(gs, 0);
        if run.1 < 2 {
            spec_join_groups(gs)
        } else {
            spec_join_groups(gs.take(run.0)) + seq![':', ':'] + spec_join_groups(
                gs.skip(run.0 + run.1),
            )
        }
    }
}

/// Text of an address, either family.
pub open spec fn spec_ip_text(ip: IpAddress) -> Seq<char> {
    match ip {
        IpAddress::V4(v) => spec_v4_text(v),
        IpAddress::V6(v) => spec_v6_text(v),
    }
}

/// True when `c` is a decimal digit character.
pub open spec fn spec_is_digit(c: char) -> bool {
    48 <= c as u32 <= 57
}

/// Value of a decimal digit character.
pub open spec fn spec_digit_val(c: char) -> int {
    c as u32 - 48
}

/// Decimal value of a digit string.
pub open spec fn spec_dec_val(p: Seq<char>) -> int
    decreases p.len(),
{
    if p.len() == 0 {
        0
    } else {
        spec_dec_val(p.drop_last()) * 10 + spec_digit_val(p.last())
    }
}

/// A valid dotted-quad octet: one to three digits, no leading zero, value at
/// most 255.
pub open spec fn spec_valid_octet(p: Seq<char>) -> bool {
    &&& 1 <= p.len() <= 3
    &&& forall|i: int| 0 <= i < p.len() ==> spec_is_digit(#[trigger] p[i])
    &&& (p[0] == '0' ==> p.len() == 1)
    &&& spec_dec_val(p) <= 255
}

/// The pieces of `s` split on `sep`; a split of length `n` has `n + 1`
/// pieces when `sep` occurs `n` times.
pub open spec fn spec_split(s: Seq<char>, sep: char) -> Seq<Seq<char>>
    decreases s.len(),
{
    if s.len() == 0 {
        seq![Seq::<char>::empty()]
    } else if s[0] == sep {
        seq![Seq::<char>::empty()] + spec_split(s.skip(1), sep)
    } else {
        let r = spec_split(s.skip(1), sep);
        r.update(0, seq![s[0]] + r[0])
    }
}

/// The parsed IPv4 value of `s`, when `s` is four valid dotted-quad octets.
pub open spec fn spec_parse_ipv4(s: Seq<char>) -> Option<u32> {
    let parts = spec_split(s, '.');
    if parts.len() == 4 && spec_valid_octet(parts[0]) && spec_valid_octet(parts[1])
        && spec_valid_octet(parts[2]) && spec_valid_octet(parts[3]) {
        Some(
            (spec_dec_val(parts[0]) * 0x1000000 + spec_dec_val(parts[1]) * 0x10000 + spec_dec_val(
                parts[2],
            ) * 0x100 + spec_dec_val(parts[3])) as u32,
        )
    } else {
        None
    }
}

/// The character sequences held by a list of character vectors.
pub open spec fn views_of(parts: Seq<Vec<char>>) -> Seq<Seq<char>> {
    parts.map_values(|p: Vec<char>| p@)
}

/// Splits the characters of `cs` from position `i` on at each `sep`.
pub(crate) fn split_at_sep(cs: &Vec<char>, i: usize, sep: char) -> (parts: Vec<Vec<char>>)
    requires
        i <= cs@.len(),
    ensures
        views_of(parts@) == spec_split(cs@.skip(i as int), sep),
        parts@.len() >= 1,
    decreases cs@.len() - i,
{
    if i == cs.len() {
        let mut parts: Vec<Vec<char>> = Vec::new();
        parts.push(Vec::new());
        proof {
            assert(cs@.skip(i as int) =~= Seq::<char>::empty());
            assert(views_of(parts@)[0] =~= Seq::<char>::empty());
            assert(views_of(parts@) =~= spec_split(cs@.skip(i as int), sep));
        }
        parts
    } else {
        let c = cs[i];
        let mut parts = split_at_sep(cs, i + 1, sep);
        let ghost r = spec_split(cs@.skip(i + 1), sep);
        proof {
            assert(cs@.skip(i as int).skip(1) =~= cs@.skip(i + 1));
            assert(cs@.skip(i as int)[0] == cs@[i as int]);
        }
        if c == sep {
            parts.insert(0, Vec::new());
            proof {
                assert(views_of(parts@) =~= seq![Seq::<char>::empty()] + r);
            }
        } else {
            let mut first = parts.remove(0);
            first.insert(0, c);
            parts.insert(0, first);
            proof {
                assert(first@ =~= seq![cs@[i as int]] + r[0]);
                assert(views_of(parts@) =~= r.update(0, seq![cs@[i as int]] + r[0]));
            }
        }
        parts
    }
}

/// Parses one dotted-quad octet: one to three digits, no leading zero,
/// at most 255.
fn parse_octet(p: &Vec<char>) -> (r: Option<u8>)
    ensures
        r is Some <==> spec_valid_octet(p@),
        r is Some ==> r->0 == spec_dec_val(p@),
{
    let n = p.len();
    if n < 1 || n > 3 {
        return None;
    }
    if p[0] == '0' && n > 1 {
        return None;
    }
    let mut val: u32 = 0;
    let mut i: usize = 0;
    while i < n
        invariant
            i <= n <= 3,
            n == p@.len(),
            val == spec_dec_val(p@.take(i as int)),
            val <= 255,
            forall|j: int| 0 <= j < i ==> spec_is_digit(#[trigger] p@[j]),
        decreases n - i,
    {
        let c = p[i];
        let cv = c as u32;
        if cv < 48 || cv > 57 {
            return None;
        }
        proof {
            let t = p@.take(i + 1);
            assert(t.drop_last() =~= p@.take(i as int));
            assert(t.last() == p@[i as int]);
            assert(spec_dec_val(t) == spec_dec_val(p@.take(i as int)) * 10 + spec_digit_val(
                p@[i as int],
            ));
        }
        val = val * 10 + (cv - 48);
        if val > 255 {
            proof {
                if spec_valid_octet(p@) {
                    lemma_dec_val_grows(p@, i + 1);
                    assert(false);
                }
            }
            return None;
        }
        i = i + 1;
    }
    proof {
        assert(p@.take(n as int) =~= p@);
    }
    Some(val as u8)
}

/// Once a digit prefix exceeds 255, the whole digit string does too.
proof fn lemma_dec_val_grows(p: Seq<char>, i: int)
    requires
        0 <= i <= p.len(),
        forall|j: int| 0 <= j < p.len() ==> spec_is_digit(#[trigger] p[j]),
        spec_dec_val(p.take(i)) > 255,
    ensures
        spec_dec_val(p) > 255,
    decreases p.len() - i,
{
    if i < p.len() {
        let t = p.take(i + 1);
        assert(t.drop_last() =~= p.take(i));
        assert(spec_dec_val(t) == spec_dec_val(p.take(i)) * 10 + spec_digit_val(p[i]));
        lemma_dec_val_grows(p, i + 1);
    } else {
        assert(p.take(i) =~= p);
    }
}

/// Parses dotted-quad IPv4 text; any other text yields `None`.
pub fn parse_ipv4_text(s: &str) -> (r: Option<IpAddress>)
    ensures
        r is Some <==> spec_parse_ipv4(s@) is Some,
        r is Some ==> r->0 == IpAddress::V4(spec_parse_ipv4(s@)->0),
{
    let n = s.unicode_len();
    let mut cs: Vec<char> = Vec::new();
    let mut i: usize = 0;
    while i < n
        invariant
            i <= n,
            n == s@.len(),
            cs@ =~= s@.take(i as int),
        decreases n - i,
    {
        cs.push(s.get_char(i));
        i = i + 1;
    }
    proof {
        assert(cs@ =~= s@);
    }
    parse_ipv4_chars(&cs)
}

/// Parses a dotted-quad address from its characters.
pub(crate) fn parse_ipv4_chars(cs: &Vec<char>) -> (r: Option<IpAddress>)
    ensures
        r is Some <==> spec_parse_ipv4(cs@) is Some,
        r is Some ==> r->0 == IpAddress::V4(spec_parse_ipv4(cs@)->0),
{
    proof {
        assert(cs@.skip(0) =~= cs@);
    }
    let parts = split_at_sep(&cs, 0, '.');
    if parts.len() != 4 {
        return None;
    }
    let o0 = parse_octet(&parts[0]);
    let o1 = parse_octet(&parts[1]);
    let o2 = parse_octet(&parts[2]);
    let o3 = parse_octet(&parts[3]);
    proof {
        assert(views_of(parts@)[0] == parts@[0]@);
        assert(views_of(parts@)[1] == parts@[1]@);
        assert(views_of(parts@)[2] == parts@[2]@);
        assert(views_of(parts@)[3] == parts@[3]@);
    }
    match (o0, o1, o2, o3) {
        (Some(a), Some(b), Some(c), Some(d)) => {
            let v: u32 = (a as u32) * 0x1000000 + (b as u32) * 0x10000 + (c as u32) * 0x100 + (
            d as u32);
            Some(IpAddress::V4(v))
        },
        _ => None,
    }
}

/// True when `c` is a hexadecimal digit character, either case.
pub open spec fn spec_is_hex_digit(c: char) -> bool {
    48 <= c as u32 <= 57 || 97 <= c as u32 <= 102 || 65 <= c as u32 <= 70
}

/// Value of a hexadecimal digit character.
pub open spec fn spec_hex_digit_val(c: char) -> int {
    if 48 <= c as u32 <= 57 {
        c as u32 - 48
    } else if 97 <= c as u32 <= 102 {
        c as u32 - 87
    } else {
        c as u32 - 55
    }
}

/// Hexadecimal value of a digit string.
pub open spec fn spec_hex_group_val(p: Seq<char>) -> int
    decreases p.len(),
{
    if p.len() == 0 {
        0
    } else {
        spec_hex_group_val(p.drop_last()) * 16 + spec_hex_digit_val(p.last())
    }
}

/// A valid colon-hexadecimal group: one to four hexadecimal digits, either
/// case, leading zeros allowed.
pub open spec fn spec_valid_group(p: Seq<char>) -> bool {
    &&& 1 <= p.len() <= 4
    &&& forall|i: int| 0 <= i < p.len() ==> spec_is_hex_digit(#[trigger] p[i])
}

/// The group values of a piece list in which every piece is a valid group.
pub open spec fn spec_group_list(ps: Seq<Seq<char>>) -> Option<Seq<u16>>
    decreases ps.len(),
{
    if ps.len() == 0 {
        Some(Seq::empty())
    } else {
        match spec_group_list(ps.drop_last()) {
            None => None,
            Some(gs) => if spec_valid_group(ps.last()) {
                Some(gs.push(spec_hex_group_val(ps.last()) as u16))
            } else {
                None
            },
        }
    }
}

/// Once a prefix of the pieces fails as groups, the whole list does.
proof fn lemma_group_list_extend_none(ps: Seq<Seq<char>>, j: int)
    requires
        0 <= j <= ps.len(),
        spec_group_list(ps.take(j)) is None,
    ensures
        spec_group_list(ps) is None,
    decreases ps.len() - j,
{
    if j < ps.len() {
        assert(ps.take(j + 1).drop_last() =~= ps.take(j));
        lemma_group_list_extend_none(ps, j + 1);
    } else {
        assert(ps.take(j) =~= ps);
    }
}

/// The 16-bit units of a piece list: every piece a group, except that the
/// last may instead be an embedded dotted quad, worth two units.
pub open spec fn spec_units(ps: Seq<Seq<char>>) -> Option<Seq<u16>> {
    if ps.len() == 0 {
        Some(Seq::empty())
    } else {
        match spec_group_list(ps.drop_last()) {
            None => None,
            Some(gs) => if spec_valid_group(ps.last()) {
                Some(gs.push(spec_hex_group_val(ps.last()) as u16))
            } else {
                match spec_parse_ipv4(ps.last()) {
                    Some(v) => Some(gs + seq![(v >> 16u32) as u16, (v & 0xFFFF) as u16]),
                    None => None,
                }
            },
        }
    }
}

/// The big-endian value of a unit list.
pub open spec fn spec_units_val(us: Seq<u16>) -> int
    decreases us.len(),
{
    if us.len() == 0 {
        0
    } else {
        spec_units_val(us.drop_last()) * 0x10000 + us.last()
    }
}

/// How many pieces are empty.
pub open spec fn spec_empty_count(ps: Seq<Seq<char>>) -> int
    decreases ps.len(),
{
    if ps.len() == 0 {
        0
    } else {
        spec_empty_count(ps.drop_last()) + if ps.last().len() == 0 {
            1int
        } else {
            0int
        }
    }
}

/// The position of the first empty piece; the list's length when none is.
pub open spec fn spec_first_empty(ps: Seq<Seq<char>>) -> int
    decreases ps.len(),
{
    if ps.len() == 0 {
        0
    } else {
        let f = spec_first_empty(ps.drop_last());
        if f < ps.len() - 1 {
            f
        } else if ps.last().len() == 0 {
            ps.len() - 1
        } else {
            ps.len() as int
        }
    }
}

/// The head and tail piece lists of a colon-hexadecimal text with a `::`
/// elision, read off the colon-split pieces: one interior empty piece, two
/// leading empties, or two trailing empties; anything else is malformed.
pub open spec fn spec_v6_head_tail(ps: Seq<Seq<char>>) -> Option<(Seq<Seq<char>>, Seq<Seq<char>>)> {
    let n = ps.len();
    let ec = spec_empty_count(ps);
    let e = spec_first_empty(ps);
    if ec == 1 && 1 <= e <= n - 2 {
        Some((ps.take(e), ps.skip(e + 1)))
    } else if ec == 2 && n >= 3 && e == 0 && ps[1].len() == 0 {
        Some((Seq::empty(), ps.skip(2)))
    } else if ec == 2 && n >= 3 && e == n - 2 && ps[n - 1].len() == 0 {
        Some((ps.take(n - 2), Seq::empty()))
    } else {
        None
    }
}

/// The parsed IPv6 value of colon-hexadecimal text: eight groups in full,
/// with one `::` standing for at least one elided zero group, the last
/// piece possibly an embedded dotted quad worth two groups.
pub open spec fn spec_parse_ipv6(s: Seq<char>) -> Option<u128> {
    let ps = spec_split(s, ':');
    if spec_empty_count(ps) == 0 {
        match spec_units(ps) {
            Some(us) => if us.len() == 8 {
                Some(spec_units_val(us) as u128)
            } else {
                None
            },
            None => None,
        }
    } else if ps.len() == 3 && spec_empty_count(ps) == 3 {
        Some(0)
    } else {
        match spec_v6_head_tail(ps) {
            None => None,
            Some((head, tail)) => match (spec_group_list(head), spec_units(tail)) {
                (Some(hs), Some(ts)) => if hs.len() + ts.len() <= 7 {
                    Some(
                        spec_units_val(
                            hs + Seq::new((8 - hs.len() - ts.len()) as nat, |i: int| 0u16) + ts,
                        ) as u128,
                    )
                } else {
                    None
                },
                _ => None,
            },
        }
    }
}

/// The parsed address of a text line: a dotted quad, or colon-hexadecimal
/// IPv6 text.
pub open spec fn spec_parse_ip_text(s: Seq<char>) -> Option<IpAddress> {
    match spec_parse_ipv4(s) {
        Some(v) => Some(IpAddress::V4(v)),
        None => match spec_parse_ipv6(s) {
            Some(v) => Some(IpAddress::V6(v)),
            None => None,
        },
    }
}

proof fn lemma_hex_group_val_bound(p: Seq<char>)
    requires
        forall|i: int| 0 <= i < p.len() ==> spec_is_hex_digit(#[trigger] p[i]),
    ensures
        0 <= spec_hex_group_val(p) < pow2((4 * p.len()) as nat),
    decreases p.len(),
{
    vstd::arithmetic::power2::lemma2_to64();
    if p.len() > 0 {
        assert(forall|i: int|
            0 <= i < p.drop_last().len() ==> spec_is_hex_digit(#[trigger] p.drop_last()[i]));
        lemma_hex_group_val_bound(p.drop_last());
        vstd::arithmetic::power2::lemma_pow2_adds((4 * (p.len() - 1)) as nat, 4);
        assert(0 <= spec_hex_digit_val(p.last()) < 16);
    }
}

/// Parses one colon-hexadecimal group of one to four digits.
fn parse_group(p: &Vec<char>) -> (r: Option<u16>)
    ensures
        r is Some <==> spec_valid_group(p@),
        r is Some ==> r->0 == spec_hex_group_val(p@) as u16,
{
    let n = p.len();
    if n < 1 || n > 4 {
        return None;
    }
    proof {
        vstd::arithmetic::power2::lemma2_to64();
    }
    let mut acc: u32 = 0;
    let mut i: usize = 0;
    while i < n
        invariant
            i <= n <= 4,
            n == p@.len(),
            acc == spec_hex_group_val(p@.take(i as int)),
            acc < pow2((4 * i) as nat),
            forall|j: int| 0 <= j < i ==> spec_is_hex_digit(#[trigger] p@[j]),
        decreases n - i,
    {
        let c = p[i];
        let cv = c as u32;
        let d: u32 = if 48 <= cv && cv <= 57 {
            cv - 48
        } else if 97 <= cv && cv <= 102 {
            cv - 87
        } else if 65 <= cv && cv <= 70 {
            cv - 55
        } else {
            return None;
        };
        proof {
            vstd::arithmetic::power2::lemma2_to64();
            vstd::arithmetic::power2::lemma_pow2_adds((4 * i) as nat, 4);
            let t = p@.take(i + 1);
            assert(t.drop_last() =~= p@.take(i as int));
            assert(t.last() == p@[i as int]);
            assert(spec_hex_group_val(t) == spec_hex_group_val(p@.take(i as int)) * 16
                + spec_hex_digit_val(p@[i as int]));
        }
        acc = acc * 16 + d;
        i = i + 1;
    }
    proof {
        assert(p@.take(n as int) =~= p@);
        vstd::arithmetic::power2::lemma2_to64();
        lemma_hex_group_val_bound(p@);
    }
    Some(acc as u16)
}

/// Parses `parts[from .. to]` as plain groups.
fn parse_group_range(parts: &Vec<Vec<char>>, from: usize, to: usize) -> (r: Option<Vec<u16>>)
    requires
        from <= to <= parts@.len(),
    ensures
        match r {
            Some(v) => spec_group_list(views_of(parts@).subrange(from as int, to as int)) == Some(
                v@,
            ),
            None => spec_group_list(views_of(parts@).subrange(from as int, to as int)) is None,
        },
{
    let ghost sub = views_of(parts@).subrange(from as int, to as int);
    let mut out: Vec<u16> = Vec::new();
    proof {
        assert(sub.take(0) =~= Seq::<Seq<char>>::empty());
    }
    let mut j: usize = from;
    while j < to
        invariant
            from <= j <= to <= parts@.len(),
            sub == views_of(parts@).subrange(from as int, to as int),
            sub.len() == to - from,
            spec_group_list(sub.take(j - from)) == Some(out@),
        decreases to - j,
    {
        proof {
            assert(sub[j - from] == parts@[j as int]@);
            assert(sub.take(j - from + 1).drop_last() =~= sub.take(j - from));
            assert(sub.take(j - from + 1).last() == sub[j - from]);
        }
        match parse_group(&parts[j]) {
            Some(g) => {
                out.push(g);
            },
            None => {
                proof {
                    assert(spec_group_list(sub.take(j - from + 1)) is None);
                    lemma_group_list_extend_none(sub, j - from + 1);
                }
                return None;
            },
        }
        j = j + 1;
    }
    proof {
        assert(sub.take(to - from) =~= sub);
    }
    Some(out)
}

/// Parses `parts[from .. to]` as 16-bit units: groups, the last piece
/// possibly an embedded dotted quad.
fn parse_units_range(parts: &Vec<Vec<char>>, from: usize, to: usize) -> (r: Option<Vec<u16>>)
    requires
        from <= to <= parts@.len(),
    ensures
        match r {
            Some(v) => spec_units(views_of(parts@).subrange(from as int, to as int)) == Some(v@),
            None => spec_units(views_of(parts@).subrange(from as int, to as int)) is None,
        },
{
    let ghost sub = views_of(parts@).subrange(from as int, to as int);
    if from == to {
        proof {
            assert(sub =~= Seq::<Seq<char>>::empty());
            assert(spec_units(sub) == Some(Seq::<u16>::empty()));
        }
        return Some(Vec::new());
    }
    proof {
        assert(sub.drop_last() =~= views_of(parts@).subrange(from as int, to - 1));
        assert(sub.last() == parts@[to - 1]@);
    }
    let mut out = match parse_group_range(parts, from, to - 1) {
        Some(v) => v,
        None => {
            return None;
        },
    };
    let last = &parts[to - 1];
    match parse_group(last) {
        Some(g) => {
            out.push(g);
            Some(out)
        },
        None => {
            match parse_ipv4_chars(last) {
                Some(IpAddress::V4(v)) => {
                    proof {
                        assert((v >> 16u32) < 0x10000 && (v & 0xFFFF) < 0x10000) by (bit_vector);
                    }
                    out.push((v >> 16u32) as u16);
                    out.push((v & 0xFFFF) as u16);
                    proof {
                        let gs = spec_group_list(sub.drop_last())->0;
                        assert(out@ =~= gs + seq![(v >> 16u32) as u16, (v & 0xFFFF) as u16]);
                    }
                    Some(out)
                },
                _ => None,
            }
        },
    }
}

proof fn lemma_units_val_bound(us: Seq<u16>)
    ensures
        0 <= spec_units_val(us) < pow2((16 * us.len()) as nat),
    decreases us.len(),
{
    vstd::arithmetic::power2::lemma2_to64();
    if us.len() > 0 {
        lemma_units_val_bound(us.drop_last());
        vstd::arithmetic::power2::lemma_pow2_adds((16 * (us.len() - 1)) as nat, 16);
    }
}

/// Reads a unit list of at most eight entries as one big-endian value.
fn units_to_u128(us: &Vec<u16>) -> (r: u128)
    requires
        us@.len() <= 8,
    ensures
        r == spec_units_val(us@),
{
    let n = us.len();
    proof {
        vstd::arithmetic::power2::lemma2_to64();
    }
    let mut acc: u128 = 0;
    let mut i: usize = 0;
    while i < n
        invariant
            i <= n <= 8,
            n == us@.len(),
            acc == spec_units_val(us@.take(i as int)),
            acc < pow2((16 * i) as nat),
        decreases n - i,
    {
        proof {
            lemma_units_val_bound(us@.take(i as int));
            vstd::arithmetic::power2::lemma_pow2_adds((16 * i) as nat, 16);
            vstd::arithmetic::power2::lemma_pow2_adds(64, 64);
            vstd::arithmetic::power2::lemma2_to64();
            if 16 * i + 16 < 128 {
                vstd::arithmetic::power2::lemma_pow2_strictly_increases((16 * i + 16) as nat, 128);
            }
            let t = us@.take(i + 1);
            assert(t.drop_last() =~= us@.take(i as int));
            assert(t.last() == us@[i as int]);
        }
        acc = acc * 0x10000 + (us[i] as u128);
        i = i + 1;
    }
    proof {
        assert(us@.take(n as int) =~= us@);
    }
    acc
}

/// Parses colon-hexadecimal IPv6 text from its characters.
pub(crate) fn parse_ipv6_chars(cs: &Vec<char>) -> (r: Option<IpAddress>)
    ensures
        r is Some <==> spec_parse_ipv6(cs@) is Some,
        r is Some ==> r->0 == IpAddress::V6(spec_parse_ipv6(cs@)->0),
{
    proof {
        assert(cs@.skip(0) =~= cs@);
    }
    let parts = split_at_sep(&cs, 0, ':');
    let ghost pv = views_of(parts@);
    let n = parts.len();
    // Count the empty pieces and find the first.
    let mut ec: usize = 0;
    let mut fe: usize = n;
    let mut i: usize = 0;
    while i < n
        invariant
            i <= n,
            n == parts@.len(),
            pv == views_of(parts@),
            pv.len() == n,
            ec == spec_empty_count(pv.take(i as int)),
            spec_first_empty(pv.take(i as int)) == (if fe == n {
                i as int
            } else {
                fe as int
            }),
            fe == n || fe < i,
            ec <= i,
        decreases n - i,
    {
        proof {
            assert(pv.take(i + 1).drop_last() =~= pv.take(i as int));
            assert(pv.take(i + 1).last() == pv[i as int]);
            assert(pv[i as int] == parts@[i as int]@);
        }
        if parts[i].len() == 0 {
            if fe == n {
                fe = i;
            }
            ec = ec + 1;
        }
        i = i + 1;
    }
    proof {
        assert(pv.take(n as int) =~= pv);
    }
    if ec == 0 {
        proof {
            assert(pv.subrange(0, n as int) =~= pv);
        }
        match parse_units_range(&parts, 0, n) {
            Some(us) => {
                if us.len() == 8 {
                    proof {
                        lemma_units_val_bound(us@);
                        vstd::arithmetic::power2::lemma_pow2_adds(64, 64);
                        vstd::arithmetic::power2::lemma2_to64();
                    }
                    let v = units_to_u128(&us);
                    Some(IpAddress::V6(v))
                } else {
                    None
                }
            },
            None => None,
        }
    } else if n == 3 && ec == 3 {
        Some(IpAddress::V6(0))
    } else {
        // A `::` elision: split into the pieces before and after it.
        let (hf, ht, tf, tt): (usize, usize, usize, usize) = if ec == 1 && 1 <= fe && n >= 2
            && fe <= n - 2 {
            (0, fe, fe + 1, n)
        } else if ec == 2 && n >= 3 && fe == 0 && parts[1].len() == 0 {
            (0, 0, 2, n)
        } else if ec == 2 && n >= 3 && fe == n - 2 && parts[n - 1].len() == 0 {
            (0, n - 2, n, n)
        } else {
            proof {
                if n >= 2 {
                    assert(pv[1] == parts@[1]@);
                    assert(pv[n - 1] == parts@[n - 1]@);
                }
                assert(spec_v6_head_tail(pv) is None);
            }
            return None;
        };
        proof {
            if n >= 2 {
                assert(pv[1] == parts@[1]@);
                assert(pv[n - 1] == parts@[n - 1]@);
            }
            assert(spec_v6_head_tail(pv) matches Some(ht_pair) && ht_pair.0 =~= pv.subrange(
                hf as int,
                ht as int,
            ) && ht_pair.1 =~= pv.subrange(tf as int, tt as int));
        }
        let head = match parse_group_range(&parts, hf, ht) {
            Some(v) => v,
            None => {
                return None;
            },
        };
        let tail = match parse_units_range(&parts, tf, tt) {
            Some(v) => v,
            None => {
                return None;
            },
        };
        let hl = head.len();
        let tl = tail.len();
        if hl > 7 || tl > 7 - hl {
            return None;
        }
        let mut us = head;
        let mut z: usize = 8 - hl - tl;
        let ghost zeros = Seq::new((8 - us@.len() - tail@.len()) as nat, |i: int| 0u16);
        let ghost before = us@;
        while z > 0
            invariant
                us@.len() + tail@.len() + z == 8,
                before.len() + zeros.len() + tail@.len() == 8,
                z <= zeros.len(),
                forall|k: int| 0 <= k < zeros.len() ==> #[trigger] zeros[k] == 0u16,
                us@ =~= before + zeros.take(zeros.len() - z),
            decreases z,
        {
            us.push(0);
            proof {
                assert(us@ =~= before + zeros.take(zeros.len() - (z - 1)));
            }
            z = z - 1;
        }
        let mut t = tail;
        us.append(&mut t);
        proof {
            assert(zeros.take(zeros.len() as int) =~= zeros);
            assert(us@ =~= before + zeros + tail@);
            lemma_units_val_bound(us@);
            vstd::arithmetic::power2::lemma_pow2_adds(64, 64);
            vstd::arithmetic::power2::lemma2_to64();
        }
        let v = units_to_u128(&us);
        Some(IpAddress::V6(v))
    }
}

/// Parses a text line as an address: a dotted quad, or colon-hexadecimal
/// IPv6 text.
pub(crate) fn parse_ip_chars(cs: &Vec<char>) -> (r: Option<IpAddress>)
    ensures
        r == spec_parse_ip_text(cs@),
{
    match parse_ipv4_chars(cs) {
        Some(ip) => Some(ip),
        None => parse_ipv6_chars(cs),
    }
}

/// Parses address text, either family; any other text yields `None`.
pub fn parse_ip_text(s: &str) -> (r: Option<IpAddress>)
    ensures
        r == spec_parse_ip_text(s@),
{
    let n = s.unicode_len();
    let mut cs: Vec<char> = Vec::new();
    let mut i: usize = 0;
    while i < n
        invariant
            i <= n,
            n == s@.len(),
            cs@ =~= s@.take(i as int),
        decreases n - i,
    {
        cs.push(s.get_char(i));
        i = i + 1;
    }
    proof {
        assert(cs@ =~= s@);
    }
    parse_ip_chars(&cs)
}

proof fn lemma_digit_char_val(d: int)
    requires
        0 <= d < 10,
    ensures
        spec_is_digit(spec_digit_char(d)),
        spec_digit_val(spec_digit_char(d)) == d,
        spec_digit_char(d) != '.',
{
}

/// A byte's decimal text is all digits, has no leading zero, and reads
/// back as the byte.
proof fn lemma_dec_u8_reads_back(n: u8)
    ensures
        spec_valid_octet(spec_dec_u8(n)),
        spec_dec_val(spec_dec_u8(n)) == n,
        forall|i: int| 0 <= i < spec_dec_u8(n).len() ==> #[trigger] spec_dec_u8(n)[i] != '.',
{
    let s = spec_dec_u8(n);
    assert(spec_dec_val(Seq::<char>::empty()) == 0);
    if n >= 100 {
        assert((n / 100) * 100 + ((n / 10) % 10) * 10 + n % 10 == n && 1 <= n / 100 < 10 && (n
            / 10) % 10 < 10 && n % 10 < 10) by (bit_vector)
            requires
                n >= 100,
        ;
        let c0 = spec_digit_char((n / 100) as int);
        let c1 = spec_digit_char(((n / 10) % 10) as int);
        let c2 = spec_digit_char((n % 10) as int);
        lemma_digit_char_val((n / 100) as int);
        lemma_digit_char_val(((n / 10) % 10) as int);
        lemma_digit_char_val((n % 10) as int);
        assert(s == seq![c0, c1, c2]);
        assert(seq![c0].drop_last() =~= Seq::<char>::empty());
        assert(seq![c0, c1].drop_last() =~= seq![c0]);
        assert(seq![c0, c1, c2].drop_last() =~= seq![c0, c1]);
        assert(spec_dec_val(seq![c0]) == spec_digit_val(c0));
        assert(spec_dec_val(seq![c0, c1]) == spec_digit_val(c0) * 10 + spec_digit_val(c1));
        assert(spec_dec_val(seq![c0, c1, c2]) == (spec_digit_val(c0) * 10 + spec_digit_val(c1))
            * 10 + spec_digit_val(c2));
        assert(c0 != '0') by {
            lemma_digit_char_val(0);
        }
        assert forall|i: int| 0 <= i < s.len() implies spec_is_digit(#[trigger] s[i]) && s[i]
            != '.' by {
            assert(s[i] == c0 || s[i] == c1 || s[i] == c2);
        }
    } else if n >= 10 {
        assert((n / 10) * 10 + n % 10 == n && 1 <= n / 10 < 10 && n % 10 < 10) by (bit_vector)
            requires
                10 <= n < 100,
        ;
        let c0 = spec_digit_char((n / 10) as int);
        let c1 = spec_digit_char((n % 10) as int);
        lemma_digit_char_val((n / 10) as int);
        lemma_digit_char_val((n % 10) as int);
        assert(s == seq![c0, c1]);
        assert(seq![c0].drop_last() =~= Seq::<char>::empty());
        assert(seq![c0, c1].drop_last() =~= seq![c0]);
        assert(spec_dec_val(seq![c0]) == spec_digit_val(c0));
        assert(spec_dec_val(seq![c0, c1]) == spec_digit_val(c0) * 10 + spec_digit_val(c1));
        assert(c0 != '0') by {
            lemma_digit_char_val(0);
        }
        assert forall|i: int| 0 <= i < s.len() implies spec_is_digit(#[trigger] s[i]) && s[i]
            != '.' by {
            assert(s[i] == c0 || s[i] == c1);
        }
    } else {
        let c0 = spec_digit_char(n as int);
        lemma_digit_char_val(n as int);
        assert(s == seq![c0]);
        assert(seq![c0].drop_last() =~= Seq::<char>::empty());
        assert(spec_dec_val(seq![c0]) == spec_digit_val(c0));
        assert forall|i: int| 0 <= i < s.len() implies spec_is_digit(#[trigger] s[i]) && s[i]
            != '.' by {
            assert(s[i] == c0);
        }
    }
}

/// A separator-free piece splits into itself alone.
proof fn lemma_split_whole(a: Seq<char>, sep: char)
    requires
        forall|i: int| 0 <= i < a.len() ==> #[trigger] a[i] != sep,
    ensures
        spec_split(a, sep) == seq![a],
    decreases a.len(),
{
    if a.len() == 0 {
        assert(a =~= Seq::<char>::empty());
        assert(spec_split(a, sep) =~= seq![a]);
    } else {
        lemma_split_whole(a.skip(1), sep);
        let r = spec_split(a.skip(1), sep);
        assert(seq![a[0]] + a.skip(1) =~= a);
        assert(r.update(0, seq![a[0]] + r[0]) =~= seq![a]);
    }
}

/// A separator after a separator-free piece splits the piece off the
/// front.
proof fn lemma_split_prefix(a: Seq<char>, b: Seq<char>, sep: char)
    requires
        forall|i: int| 0 <= i < a.len() ==> #[trigger] a[i] != sep,
    ensures
        spec_split(a + seq![sep] + b, sep) == seq![a] + spec_split(b, sep),
    decreases a.len(),
{
    let s = a + seq![sep] + b;
    if a.len() == 0 {
        assert(s[0] == sep);
        assert(s.skip(1) =~= b);
        assert(a =~= Seq::<char>::empty());
        assert(seq![Seq::<char>::empty()] + spec_split(b, sep) =~= seq![a] + spec_split(b, sep));
    } else {
        assert(s[0] == a[0]);
        assert(s.skip(1) =~= a.skip(1) + seq![sep] + b);
        lemma_split_prefix(a.skip(1), b, sep);
        let r = spec_split(s.skip(1), sep);
        assert(r[0] == a.skip(1));
        assert(seq![a[0]] + a.skip(1) =~= a);
        assert(r.update(0, seq![a[0]] + r[0]) =~= seq![a] + spec_split(b, sep));
    }
}

/// Formatting an IPv4 value and parsing the text yields the value back:
/// the dotted-decimal text of any IPv4 value is a well-formed dotted quad,
/// and it reads as that value.
pub proof fn lemma_ipv4_text_round_trip(v: u32)
    ensures
        spec_parse_ipv4(spec_v4_text(v)) == Some(v),
{
    let o0 = spec_v4_octet(v, 0);
    let o1 = spec_v4_octet(v, 1);
    let o2 = spec_v4_octet(v, 2);
    let o3 = spec_v4_octet(v, 3);
    lemma_dec_u8_reads_back(o0);
    lemma_dec_u8_reads_back(o1);
    lemma_dec_u8_reads_back(o2);
    lemma_dec_u8_reads_back(o3);
    let d0 = spec_dec_u8(o0);
    let d1 = spec_dec_u8(o1);
    let d2 = spec_dec_u8(o2);
    let d3 = spec_dec_u8(o3);
    let t = spec_v4_text(v);
    assert(t =~= d0 + seq!['.'] + (d1 + seq!['.'] + (d2 + seq!['.'] + d3)));
    lemma_split_prefix(d0, d1 + seq!['.'] + (d2 + seq!['.'] + d3), '.');
    lemma_split_prefix(d1, d2 + seq!['.'] + d3, '.');
    lemma_split_prefix(d2, d3, '.');
    lemma_split_whole(d3, '.');
    let parts = spec_split(t, '.');
    assert(parts =~= seq![d0, d1, d2, d3]);
    assert(v >> 0u32 == v && (v >> 24u32) & 0xFF < 256 && (v >> 16u32) & 0xFF < 256 && (v
        >> 8u32) & 0xFF < 256 && v & 0xFF < 256) by (bit_vector);
    assert(((v >> 24u32) & 0xFF) * 0x1000000 + ((v >> 16u32) & 0xFF) * 0x10000 + ((v
        >> 8u32) & 0xFF) * 0x100 + (v & 0xFF) == v) by (bit_vector);
}

fn digit_str(d: u8) -> (s: &'static str)
    requires
        d < 10,
    ensures
        s@ == seq![spec_digit_char(d as int)],
{
    let s = match d {
        0 => "0",
        1 => "1",
        2 => "2",
        3 => "3",
        4 => "4",
        5 => "5",
        6 => "6",
        7 => "7",
        8 => "8",
        _ => "9",
    };
    proof {
        reveal_strlit("0");
        reveal_strlit("1");
        reveal_strlit("2");
        reveal_strlit("3");
        reveal_strlit("4");
        reveal_strlit("5");
        reveal_strlit("6");
        reveal_strlit("7");
        reveal_strlit("8");
        reveal_strlit("9");
        assert(s@ =~= seq![spec_digit_char(d as int)]);
    }
    s
}

fn hex_str(d: u16) -> (s: &'static str)
    requires
        d < 16,
    ensures
        s@ == seq![spec_hex_char(d as int)],
{
    if d < 10 {
        digit_str(d as u8)
    } else {
        let s = match d {
            10 => "a",
            11 => "b",
            12 => "c",
            13 => "d",
            14 => "e",
            _ => "f",
        };
        proof {
            reveal_strlit("a");
            reveal_strlit("b");
            reveal_strlit("c");
            reveal_strlit("d");
            reveal_strlit("e");
            reveal_strlit("f");
            assert(s@ =~= seq![spec_hex_char(d as int)]);
        }
        s
    }
}

fn append_dec_u8(out: &mut String, n: u8)
    ensures
        final(out)@ == old(out)@ + spec_dec_u8(n),
{
    if n >= 100 {
        out.append(digit_str(n / 100));
        out.append(digit_str((n / 10) % 10));
        out.append(digit_str(n % 10));
    } else if n >= 10 {
        out.append(digit_str(n / 10));
        out.append(digit_str(n % 10));
    } else {
        out.append(digit_str(n));
    }
    proof {
        assert(out@ =~= old(out)@ + spec_dec_u8(n));
    }
}

fn append_hex_u16(out: &mut String, g: u16)
    ensures
        final(out)@ == old(out)@ + spec_hex_u16(g),
{
    proof {
        assert(g >> 12u16 < 16 && (g >> 8u16) & 0xF < 16 && (g >> 4u16) & 0xF < 16 && g & 0xF
            < 16) by (bit_vector);
    }
    if g >= 0x1000 {
        out.append(hex_str(g >> 12u16));
        out.append(hex_str((g >> 8u16) & 0xF));
        out.append(hex_str((g >> 4u16) & 0xF));
        out.append(hex_str(g & 0xF));
    } else if g >= 0x100 {
        out.append(hex_str((g >> 8u16) & 0xF));
        out.append(hex_str((g >> 4u16) & 0xF));
        out.append(hex_str(g & 0xF));
    } else if g >= 0x10 {
        out.append(hex_str((g >> 4u16) & 0xF));
        out.append(hex_str(g & 0xF));
    } else {
        proof {
            assert(g < 0x10 ==> g & 0xF == g) by (bit_vector);
        }
        out.append(hex_str(g & 0xF));
    }
    proof {
        assert(out@ =~= old(out)@ + spec_hex_u16(g));
    }
}

/// Appends the dotted-decimal text of an IPv4 value.
fn append_v4_text(out: &mut String, v: u32)
    ensures
        final(out)@ == old(out)@ + spec_v4_text(v),
{
    proof {
        assert((v >> 24u32) & 0xFF < 256 && (v >> 16u32) & 0xFF < 256 && (v >> 8u32) & 0xFF < 256
            && v & 0xFF < 256) by (bit_vector);
    }
    append_dec_u8(out, ((v >> 24u32) & 0xFF) as u8);
    out.append(".");
    append_dec_u8(out, ((v >> 16u32) & 0xFF) as u8);
    out.append(".");
    append_dec_u8(out, ((v >> 8u32) & 0xFF) as u8);
    out.append(".");
    append_dec_u8(out, (v & 0xFF) as u8);
    proof {
        reveal_strlit(".");
        assert((v >> 24u32) & 0xFF < 256 && (v >> 16u32) & 0xFF < 256 && (v >> 8u32) & 0xFF < 256
            && v & 0xFF < 256) by (bit_vector);
        assert(v >> 0u32 == v) by (bit_vector);
        assert("."@ =~= seq!['.']);
        assert(out@ =~= old(out)@ + spec_v4_text(v));
    }
}

/// Appends the colon-joined text of the groups `gs[from..to]`.
fn append_groups(out: &mut String, gs: &Vec<u16>, from: usize, to: usize)
    requires
        from <= to <= gs@.len(),
    ensures
        final(out)@ == old(out)@ + spec_join_groups(gs@.subrange(from as int, to as int)),
{
    proof {
        assert(out@ =~= old(out)@ + spec_join_groups(gs@.subrange(from as int, from as int)));
    }
    let mut k = from;
    while k < to
        invariant
            from <= k <= to <= gs@.len(),
            out@ == old(out)@ + spec_join_groups(gs@.subrange(from as int, k as int)),
        decreases to - k,
    {
        if k > from {
            out.append(":");
        }
        append_hex_u16(out, gs[k]);
        proof {
            reveal_strlit(":");
            let sub = gs@.subrange(from as int, k + 1int);
            assert(sub.drop_last() =~= gs@.subrange(from as int, k as int));
            assert(sub.last() == gs@[k as int]);
            assert(out@ =~= old(out)@ + spec_join_groups(sub));
        }
        k = k + 1;
    }
}

/// Formats an address as text: dotted decimal for IPv4; for IPv6 the
/// embedded dotted quad of an IPv4-mapped address, else lowercase
/// colon-hexadecimal with `::` elision of the longest zero run.
pub fn format_ip_address(ip: &IpAddress) -> (s: String)
    ensures
        s@ == spec_ip_text(*ip),
{
    let mut out = String::new();
    match ip {
        IpAddress::V4(v) => {
            append_v4_text(&mut out, *v);
        },
        IpAddress::V6(v) => {
            let v = *v;
            if v >> 32u128 == 0xFFFF {
                proof {
                    reveal_strlit("::ffff:");
                    assert(v & 0xFFFF_FFFF < 0x1_0000_0000) by (bit_vector);
                }
                out.append("::ffff:");
                append_v4_text(&mut out, (v & 0xFFFF_FFFF) as u32);
                proof {
                    assert(out@ =~= spec_v6_text(v));
                }
                return out;
            }
            let mut gs: Vec<u16> = Vec::new();
            let mut k: usize = 0;
            while k < 8
                invariant
                    k <= 8,
                    gs@.len() == k,
                    forall|j: int| 0 <= j < k ==> gs@[j] == spec_v6_group(v, j),
                decreases 8 - k,
            {
                let shift: u128 = ((7 - k) * 16) as u128;
                gs.push(((v >> shift) & 0xFFFF) as u16);
                k = k + 1;
            }
            proof {
                assert(gs@ =~= spec_v6_groups(v));
            }
            // Scan from the right for the leftmost longest zero run.
            let mut run: usize = 0;
            let mut best_start: usize = 8;
            let mut best_len: usize = 0;
            let mut i: usize = 8;
            while i > 0
                invariant
                    i <= 8,
                    gs@ =~= spec_v6_groups(v),
                    gs@.len() == 8,
                    run == zero_run_len(gs@, i as int),
                    run + i <= 8,
                    best_len <= 8,
                    best_start + best_len <= 8,
                    (best_start as int, best_len as int) == spec_best_zero_run(gs@, i as int),
                decreases i,
            {
                i = i - 1;
                if gs[i] == 0 {
                    run = run + 1;
                } else {
                    run = 0;
                }
                if run >= best_len {
                    best_start = i;
                    best_len = run;
                }
            }
            if best_len < 2 {
                append_groups(&mut out, &gs, 0, 8);
                proof {
                    assert(gs@.subrange(0, 8) =~= gs@);
                }
            } else {
                append_groups(&mut out, &gs, 0, best_start);
                proof {
                    reveal_strlit("::");
                    assert("::"@ =~= seq![':', ':']);
                    assert(gs@.subrange(0, best_start as int) =~= gs@.take(best_start as int));
                }
                out.append("::");
                append_groups(&mut out, &gs, best_start + best_len, 8);
                proof {
                    assert(gs@.subrange(best_start + best_len, 8) =~= gs@.skip(
                        best_start + best_len,
                    ));
                }
            }
            proof {
                reveal_strlit("::");
                assert("::"@ =~= seq![':', ':']);
                assert(out@ =~= spec_v6_text(v));
            }
        },
    }
    out
}

} // verus!
