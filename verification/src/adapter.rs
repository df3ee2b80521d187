//! Adapter records and enumeration normalization.
//!
//! The operating-system query hands over raw, owned copies of its
//! linked-list records: one [`RawAdapter`] per adapter, each holding raw
//! socket-address records for its unicast, gateway and DNS lists.
//! Normalization turns those into [`Nic`] records, classifying each
//! socket-address by family tag, skipping unrecognized families and
//! undersized records, and deriving netmasks from on-link prefix lengths.
//!
//! A `Nic` has two comparison policies: *identity* is the `guid` (with the
//! `index` during a refresh lookup); *equality* is `guid`, `friendly_name`
//! and positional equality of the `address`, `gateway` and `dns` sequences.

use crate::ip::{
    spec_ip_is_loopback, spec_ip_is_multicast, spec_ipv4_netmask, spec_ipv6_netmask, IpAddress,
};
use vstd::arithmetic::power2::{lemma2_to64, lemma_pow2_adds, lemma_pow2_strictly_increases, pow2};
use vstd::prelude::*;
use vstd::std_specs::cmp::PartialEqSpec;

verus! {

/// Status a size query must return: the buffer-too-small signal.
pub const ERROR_BUFFER_OVERFLOW: u32 = 111;

/// Status a fetch query returns on success.
pub const NO_ERROR: u32 = 0;

/// Address-family tag of an IPv4 socket-address record.
pub const AF_INET: u16 = 2;

/// Address-family tag of an IPv6 socket-address record.
pub const AF_INET6: u16 = 23;

/// Byte size of a full IPv4 socket-address record.
pub const SOCKADDR_IN_SIZE: usize = 16;

/// Byte size of a full IPv6 socket-address record.
pub const SOCKADDR_IN6_SIZE: usize = 28;

/// Failure of a whole enumeration query; carries the status the query
/// returned.
#[derive(Clone, Copy, Debug, PartialEq, Eq, Structural)]
pub enum EnumerationError {
    /// The size query did not report the buffer-too-small signal.
    SizeQuery(u32),
    /// The fetch query did not report success.
    FetchQuery(u32),
}

/// Checks the status of the size query, which must be the buffer-too-small
/// signal; any other status is fatal to the enumeration.
pub fn check_size_query(status: u32) -> (r: Result<(), EnumerationError>)
    ensures
        r is Ok <==> status == ERROR_BUFFER_OVERFLOW,
        r is Err ==> r == Err::<(), EnumerationError>(EnumerationError::SizeQuery(status)),
{
    if status == ERROR_BUFFER_OVERFLOW {
        Ok(())
    } else {
        Err(EnumerationError::SizeQuery(status))
    }
}

/// Checks the status of the fetch query, which must be success; any other
/// status is fatal to the enumeration.
pub fn check_fetch_query(status: u32) -> (r: Result<(), EnumerationError>)
    ensures
        r is Ok <==> status == NO_ERROR,
        r is Err ==> r == Err::<(), EnumerationError>(EnumerationError::FetchQuery(status)),
{
    if status == NO_ERROR {
        Ok(())
    } else {
        Err(EnumerationError::FetchQuery(status))
    }
}

/// An owned copy of one raw socket-address record: its family tag and its
/// bytes, as many as the record claimed to hold.
#[derive(Debug)]
pub struct RawSockAddr {
    /// The record's address-family tag.
    pub family: u16,
    /// The record's bytes from its start, copied out of the walked buffer.
    pub data: Vec<u8>,
}

/// An owned copy of one raw unicast-address record: the socket address and
/// its on-link prefix length.
#[derive(Debug)]
pub struct RawUnicast {
    /// The unicast socket address.
    pub sockaddr: RawSockAddr,
    /// The on-link prefix length.
    pub prefix_length: u8,
}

/// An owned copy of one raw adapter record and its three address lists.
#[derive(Debug)]
pub struct RawAdapter {
    /// OS-assigned interface index.
    pub index: u32,
    /// Adapter identifier; empty when its narrow-string decode failed.
    pub guid: String,
    /// Display name; empty when its wide-string decode failed.
    pub friendly_name: String,
    /// Whether the adapter's operational status was "up".
    pub is_up: bool,
    /// The unicast-address list, in walk order.
    pub unicast: Vec<RawUnicast>,
    /// The gateway-address list, in walk order.
    pub gateway: Vec<RawSockAddr>,
    /// The DNS-server list, in walk order.
    pub dns: Vec<RawSockAddr>,
}

/// A unicast address with its netmask; both sides share one family.
#[derive(Clone, Copy, Debug, Hash)]
pub struct Address {
    /// The address itself.
    pub ip: IpAddress,
    /// The netmask derived from the on-link prefix length.
    pub netmask: IpAddress,
}

impl PartialEq for Address {
    fn eq(&self, other: &Self) -> (r: bool)
        ensures
            r == (self == other),
    {
        self.ip == other.ip && self.netmask == other.netmask
    }
}

impl Eq for Address {}

impl vstd::std_specs::cmp::PartialEqSpecImpl for Address {
    open spec fn obeys_eq_spec() -> bool {
        true
    }

    open spec fn eq_spec(&self, other: &Self) -> bool {
        self == other
    }
}

impl Address {
    /// Whether the address is a loopback address.
    pub fn is_loopback(&self) -> (r: bool)
        ensures
            r == spec_ip_is_loopback(self.ip),
    {
        self.ip.is_loopback()
    }

    /// Whether the address is a multicast address.
    pub fn is_multicast(&self) -> (r: bool)
        ensures
            r == spec_ip_is_multicast(self.ip),
    {
        self.ip.is_multicast()
    }
}

/// The big-endian integer read from `n` bytes of `b` starting at `off`.
pub open spec fn spec_be_bytes(b: Seq<u8>, off: int, n: int) -> int
    decreases n,
{
    if n <= 0 {
        0
    } else {
        spec_be_bytes(b, off, n - 1) * 256 + b[off + n - 1]
    }
}

proof fn lemma_be_bytes_bound(b: Seq<u8>, off: int, n: int)
    requires
        0 <= n,
        0 <= off,
        off + n <= b.len(),
    ensures
        0 <= spec_be_bytes(b, off, n) < pow2((8 * n) as nat),
    decreases n,
{
    if n == 0 {
        lemma2_to64();
    } else {
        lemma_be_bytes_bound(b, off, n - 1);
        lemma_pow2_adds((8 * (n - 1)) as nat, 8);
        lemma2_to64();
    }
}

/// Reads the big-endian integer held in `data[off .. off + n]`.
fn read_be_bytes(data: &Vec<u8>, off: usize, n: usize) -> (r: u128)
    requires
        off + n <= data@.len(),
        n <= 16,
    ensures
        r == spec_be_bytes(data@, off as int, n as int),
{
    let dlen = data.len();
    proof {
        lemma2_to64();
    }
    let mut acc: u128 = 0;
    let mut i: usize = 0;
    while i < n
        invariant
            i <= n <= 16,
            off + n <= dlen,
            dlen == data@.len(),
            acc == spec_be_bytes(data@, off as int, i as int),
            acc < pow2((8 * i) as nat),
        decreases n - i,
    {
        proof {
            lemma_be_bytes_bound(data@, off as int, i as int);
            lemma_pow2_adds((8 * i) as nat, 8);
            if 8 * i + 8 < 128 {
                lemma_pow2_strictly_increases((8 * i + 8) as nat, 128);
            }
            lemma_pow2_adds(64, 64);
            lemma2_to64();
            assert(acc * 256 + data@[off + i] < pow2((8 * i + 8) as nat));
        }
        acc = acc * 256 + (data[off + i] as u128);
        i = i + 1;
    }
    acc
}

/// The IPv4 address held in a raw socket-address record, when the record is
/// large enough; the four address octets sit at bytes 4 to 7.
pub open spec fn spec_sockaddr_v4(sa: RawSockAddr) -> Option<IpAddress> {
    if sa.data@.len() >= SOCKADDR_IN_SIZE {
        Some(IpAddress::V4(spec_be_bytes(sa.data@, 4, 4) as u32))
    } else {
        None
    }
}

/// The IPv6 address held in a raw socket-address record, when the record is
/// large enough; the sixteen address bytes sit at bytes 8 to 23.
pub open spec fn spec_sockaddr_v6(sa: RawSockAddr) -> Option<IpAddress> {
    if sa.data@.len() >= SOCKADDR_IN6_SIZE {
        Some(IpAddress::V6(spec_be_bytes(sa.data@, 8, 16) as u128))
    } else {
        None
    }
}

/// The address a raw socket-address record holds: classified by family tag;
/// unknown families and undersized records yield nothing.
pub open spec fn spec_sockaddr_ip(sa: RawSockAddr) -> Option<IpAddress> {
    if sa.family == AF_INET {
        spec_sockaddr_v4(sa)
    } else if sa.family == AF_INET6 {
        spec_sockaddr_v6(sa)
    } else {
        None
    }
}

/// Reads the IPv4 address out of a raw socket-address record; undersized
/// records yield `None`.
pub fn sockaddr_to_ipv4(sa: &RawSockAddr) -> (r: Option<IpAddress>)
    ensures
        r == spec_sockaddr_v4(*sa),
{
    if sa.data.len() < SOCKADDR_IN_SIZE {
        return None;
    }
    let v = read_be_bytes(&sa.data, 4, 4);
    proof {
        lemma_be_bytes_bound(sa.data@, 4, 4);
        lemma2_to64();
    }
    Some(IpAddress::V4(v as u32))
}

/// Reads the IPv6 address out of a raw socket-address record; undersized
/// records yield `None`.
pub fn sockaddr_to_ipv6(sa: &RawSockAddr) -> (r: Option<IpAddress>)
    ensures
        r == spec_sockaddr_v6(*sa),
{
    if sa.data.len() < SOCKADDR_IN6_SIZE {
        return None;
    }
    let v = read_be_bytes(&sa.data, 8, 16);
    Some(IpAddress::V6(v))
}

/// Reads the address out of a raw socket-address record, classified by its
/// family tag.
fn sockaddr_ip(sa: &RawSockAddr) -> (r: Option<IpAddress>)
    ensures
        r == spec_sockaddr_ip(*sa),
{
    if sa.family == AF_INET {
        sockaddr_to_ipv4(sa)
    } else if sa.family == AF_INET6 {
        sockaddr_to_ipv6(sa)
    } else {
        None
    }
}

/// The address-with-netmask a raw unicast record yields: the socket address
/// classified by family, with the netmask derived from the prefix length in
/// the same family.
pub open spec fn spec_unicast_address(u: RawUnicast) -> Option<Address> {
    match spec_sockaddr_ip(u.sockaddr) {
        Some(ip) => Some(
            Address {
                ip,
                netmask: match ip {
                    IpAddress::V4(_) => IpAddress::V4(spec_ipv4_netmask(u.prefix_length)),
                    IpAddress::V6(_) => IpAddress::V6(spec_ipv6_netmask(u.prefix_length)),
                },
            },
        ),
        None => None,
    }
}

fn unicast_address(u: &RawUnicast) -> (r: Option<Address>)
    ensures
        r == spec_unicast_address(*u),
{
    match sockaddr_ip(&u.sockaddr) {
        Some(ip) => {
            let netmask = match ip {
                IpAddress::V4(_) => IpAddress::V4(crate::ip::ipv4_netmask_from(u.prefix_length)),
                IpAddress::V6(_) => IpAddress::V6(crate::ip::ipv6_netmask_from(u.prefix_length)),
            };
            Some(Address { ip, netmask })
        },
        None => None,
    }
}

/// The address list a raw unicast list yields, in walk order, records with
/// unknown families or undersized socket addresses skipped.
pub open spec fn spec_addresses(us: Seq<RawUnicast>) -> Seq<Address>
    decreases us.len(),
{
    if us.len() == 0 {
        Seq::empty()
    } else {
        spec_addresses(us.drop_last()) + match spec_unicast_address(us.last()) {
            Some(a) => seq![a],
            None => Seq::empty(),
        }
    }
}

/// The address list a raw socket-address list yields, in walk order,
/// unknown families and undersized records skipped.
pub open spec fn spec_ip_list(ss: Seq<RawSockAddr>) -> Seq<IpAddress>
    decreases ss.len(),
{
    if ss.len() == 0 {
        Seq::empty()
    } else {
        spec_ip_list(ss.drop_last()) + match spec_sockaddr_ip(ss.last()) {
            Some(ip) => seq![ip],
            None => Seq::empty(),
        }
    }
}

/// Builds the address list of one raw unicast list.
fn unicast_addresses(us: &Vec<RawUnicast>) -> (r: Vec<Address>)
    ensures
        r@ == spec_addresses(us@),
{
    let mut r: Vec<Address> = Vec::new();
    let mut i: usize = 0;
    while i < us.len()
        invariant
            i <= us@.len(),
            r@ == spec_addresses(us@.take(i as int)),
        decreases us@.len() - i,
    {
        proof {
            assert(us@.take(i + 1).drop_last() =~= us@.take(i as int));
            assert(us@.take(i + 1).last() == us@[i as int]);
        }
        match unicast_address(&us[i]) {
            Some(a) => r.push(a),
            None => (),
        }
        i = i + 1;
    }
    proof {
        assert(us@.take(us@.len() as int) =~= us@);
    }
    r
}

fn collect_ips(ss: &Vec<RawSockAddr>) -> (r: Vec<IpAddress>)
    ensures
        r@ == spec_ip_list(ss@),
{
    let mut r: Vec<IpAddress> = Vec::new();
    let mut i: usize = 0;
    while i < ss.len()
        invariant
            i <= ss@.len(),
            r@ == spec_ip_list(ss@.take(i as int)),
        decreases ss@.len() - i,
    {
        proof {
            assert(ss@.take(i + 1).drop_last() =~= ss@.take(i as int));
            assert(ss@.take(i + 1).last() == ss@[i as int]);
        }
        match sockaddr_ip(&ss[i]) {
            Some(ip) => r.push(ip),
            None => (),
        }
        i = i + 1;
    }
    proof {
        assert(ss@.take(ss@.len() as int) =~= ss@);
    }
    r
}

/// Builds the DNS-server list of one raw adapter record.
pub fn get_dns(ss: &Vec<RawSockAddr>) -> (r: Vec<IpAddress>)
    ensures
        r@ == spec_ip_list(ss@),
{
    collect_ips(ss)
}

/// Builds the gateway list of one raw adapter record.
pub fn get_gateway(ss: &Vec<RawSockAddr>) -> (r: Vec<IpAddress>)
    ensures
        r@ == spec_ip_list(ss@),
{
    collect_ips(ss)
}

/// The abstract value of a [`Nic`].
pub struct NicView {
    /// OS-assigned interface index.
    pub index: u32,
    /// Adapter identifier: the identity key.
    pub guid: Seq<char>,
    /// Display name, passed through unaltered.
    pub friendly_name: Seq<char>,
    /// Whether the adapter was up when read.
    pub is_up: bool,
    /// Unicast addresses with netmasks, in walk order.
    pub address: Seq<Address>,
    /// Gateway addresses, in walk order.
    pub gateway: Seq<IpAddress>,
    /// DNS servers, in walk order.
    pub dns: Seq<IpAddress>,
}

/// One network adapter record, assembled from enumeration or reconstructed
/// from a saved configuration.
#[derive(Debug)]
pub struct Nic {
    index: u32,
    guid: String,
    friendly_name: String,
    is_up: bool,
    address: Vec<Address>,
    gateway: Vec<IpAddress>,
    dns: Vec<IpAddress>,
}

impl View for Nic {
    type V = NicView;

    closed spec fn view(&self) -> NicView {
        NicView {
            index: self.index,
            guid: self.guid@,
            friendly_name: self.friendly_name@,
            is_up: self.is_up,
            address: self.address@,
            gateway: self.gateway@,
            dns: self.dns@,
        }
    }
}

/// The equality policy over adapter records: `guid`, `friendly_name`, and
/// positional equality of the three address sequences. The `index` and
/// `is_up` fields do not take part.
pub open spec fn nic_eq(a: NicView, b: NicView) -> bool {
    &&& a.guid == b.guid
    &&& a.friendly_name == b.friendly_name
    &&& a.address == b.address
    &&& a.gateway == b.gateway
    &&& a.dns == b.dns
}

/// The identity policy used by a refresh lookup: `guid` and `index` alone.
pub open spec fn nic_same_identity(a: NicView, b: NicView) -> bool {
    a.guid == b.guid && a.index == b.index
}

/// Equality is order-sensitive: two records whose address sequences differ
/// at any position are not equal, even when they hold the same addresses in
/// another order; equal records agree position by position on all three
/// sequences.
pub proof fn lemma_nic_equality_order_sensitive(a: NicView, b: NicView)
    ensures
        a.address != b.address ==> !nic_eq(a, b),
        nic_eq(a, b) ==> a.address == b.address && a.gateway == b.gateway && a.dns == b.dns,
{
}

/// Compares two slices position by position with `==`.
pub fn vec_compare<T: PartialEq>(va: &[T], vb: &[T]) -> (r: bool)
    ensures
        T::obeys_eq_spec() ==> r == (va@.len() == vb@.len() && (forall|i: int|
            0 <= i < va@.len() ==> (#[trigger] va@[i]).eq_spec(&vb@[i]))),
{
    if va.len() != vb.len() {
        return false;
    }
    let n = va.len();
    let mut i: usize = 0;
    while i < n
        invariant
            i <= n,
            n == va@.len() == vb@.len(),
            T::obeys_eq_spec() ==> forall|j: int| 0 <= j < i ==> #[trigger] va@[j].eq_spec(
                &vb@[j],
            ),
        decreases n - i,
    {
        if !(va[i] == vb[i]) {
            return false;
        }
        i = i + 1;
    }
    true
}

impl PartialEq for Nic {
    fn eq(&self, other: &Self) -> (r: bool)
        ensures
            r == nic_eq(self@, other@),
    {
        let r = self.guid == other.guid && self.friendly_name == other.friendly_name
            && vec_compare(self.address.as_slice(), other.address.as_slice()) && vec_compare(
            self.gateway.as_slice(),
            other.gateway.as_slice(),
        ) && vec_compare(self.dns.as_slice(), other.dns.as_slice());
        proof {
            if r {
                assert forall|i: int| 0 <= i < self.address@.len() implies self.address@[i]
                    == other.address@[i] by {
                    assert(self.address@[i].eq_spec(&other.address@[i]));
                }
                assert forall|i: int| 0 <= i < self.gateway@.len() implies self.gateway@[i]
                    == other.gateway@[i] by {
                    assert(self.gateway@[i].eq_spec(&other.gateway@[i]));
                }
                assert forall|i: int| 0 <= i < self.dns@.len() implies self.dns@[i]
                    == other.dns@[i] by {
                    assert(self.dns@[i].eq_spec(&other.dns@[i]));
                }
                assert(self.address@ =~= other.address@);
                assert(self.gateway@ =~= other.gateway@);
                assert(self.dns@ =~= other.dns@);
            }
        }
        r
    }
}

impl Eq for Nic {}

impl vstd::std_specs::cmp::PartialEqSpecImpl for Nic {
    open spec fn obeys_eq_spec() -> bool {
        true
    }

    open spec fn eq_spec(&self, other: &Self) -> bool {
        nic_eq(self@, other@)
    }
}

impl Clone for Nic {
    /// Clones the record; the copy has the same abstract value.
    fn clone(&self) -> (r: Self)
        ensures
            r@ == self@,
    {
        let r = Nic {
            index: self.index,
            guid: self.guid.clone(),
            friendly_name: self.friendly_name.clone(),
            is_up: self.is_up,
            address: self.address.clone(),
            gateway: self.gateway.clone(),
            dns: self.dns.clone(),
        };
        proof {
            assert(r.address@ =~= self.address@);
            assert(r.gateway@ =~= self.gateway@);
            assert(r.dns@ =~= self.dns@);
        }
        r
    }
}

/// The normalized record one raw adapter record yields.
pub open spec fn spec_nic_of(raw: RawAdapter) -> NicView {
    NicView {
        index: raw.index,
        guid: raw.guid@,
        friendly_name: raw.friendly_name@,
        is_up: raw.is_up,
        address: spec_addresses(raw.unicast@),
        gateway: spec_ip_list(raw.gateway@),
        dns: spec_ip_list(raw.dns@),
    }
}

/// Whether any contained address is a loopback address.
pub open spec fn spec_nic_is_loopback(n: NicView) -> bool {
    exists|i: int| 0 <= i < n.address.len() && spec_ip_is_loopback(n.address[i].ip)
}

/// Whether any contained address is a multicast address.
pub open spec fn spec_nic_is_multicast(n: NicView) -> bool {
    exists|i: int| 0 <= i < n.address.len() && spec_ip_is_multicast(n.address[i].ip)
}

impl Nic {
    /// Builds a record from its parts; absent lists are empty.
    pub fn new(
        friendly_name: &str,
        index: u32,
        guid: &str,
        is_up: bool,
        address: Option<Vec<Address>>,
        gateway: Option<Vec<IpAddress>>,
        dns: Option<Vec<IpAddress>>,
    ) -> (r: Nic)
        ensures
            r@.index == index,
            r@.guid == guid@,
            r@.friendly_name == friendly_name@,
            r@.is_up == is_up,
            r@.address == match address {
                Some(a) => a@,
                None => Seq::<Address>::empty(),
            },
            r@.gateway == match gateway {
                Some(g) => g@,
                None => Seq::<IpAddress>::empty(),
            },
            r@.dns == match dns {
                Some(d) => d@,
                None => Seq::<IpAddress>::empty(),
            },
    {
        let r = Nic {
            index,
            guid: guid.to_owned(),
            friendly_name: friendly_name.to_owned(),
            is_up,
            address: match address {
                Some(a) => a,
                None => Vec::new(),
            },
            gateway: match gateway {
                Some(g) => g,
                None => Vec::new(),
            },
            dns: match dns {
                Some(d) => d,
                None => Vec::new(),
            },
        };
        r
    }

    /// The display name.
    pub fn name(&self) -> (r: &str)
        ensures
            r@ == self@.friendly_name,
    {
        self.friendly_name.as_str()
    }

    /// The OS-assigned interface index.
    pub fn index(&self) -> (r: Option<u32>)
        ensures
            r == Some(self@.index),
    {
        Some(self.index)
    }

    /// The adapter identifier.
    pub fn guid(&self) -> (r: &str)
        ensures
            r@ == self@.guid,
    {
        self.guid.as_str()
    }

    /// The unicast addresses with their netmasks, in walk order.
    pub fn address(&self) -> (r: &[Address])
        ensures
            r@ == self@.address,
    {
        self.address.as_slice()
    }

    /// The DNS servers, in walk order.
    pub fn dns(&self) -> (r: &[IpAddress])
        ensures
            r@ == self@.dns,
    {
        self.dns.as_slice()
    }

    /// The gateway addresses, in walk order.
    pub fn gateway(&self) -> (r: &[IpAddress])
        ensures
            r@ == self@.gateway,
    {
        self.gateway.as_slice()
    }

    /// No destination address is recorded for an adapter.
    pub fn destination(&self) -> (r: Option<IpAddress>)
        ensures
            r is None,
    {
        None
    }

    /// Whether the adapter was up when read.
    pub fn is_up(&self) -> (r: bool)
        ensures
            r == self@.is_up,
    {
        self.is_up
    }

    /// Running state is not distinguished from up state here.
    pub fn is_running(&self) -> (r: bool)
        ensures
            r == true,
    {
        true
    }

    /// Whether any contained address is a loopback address.
    pub fn is_loopback(&self) -> (r: bool)
        ensures
            r == spec_nic_is_loopback(self@),
    {
        let n = self.address.len();
        let mut i: usize = 0;
        while i < n
            invariant
                i <= n,
                n == self.address@.len(),
                forall|j: int| 0 <= j < i ==> !spec_ip_is_loopback(self.address@[j].ip),
            decreases n - i,
        {
            if self.address[i].is_loopback() {
                return true;
            }
            i = i + 1;
        }
        false
    }

    /// Whether any contained address is a multicast address.
    pub fn is_multicast(&self) -> (r: bool)
        ensures
            r == spec_nic_is_multicast(self@),
    {
        let n = self.address.len();
        let mut i: usize = 0;
        while i < n
            invariant
                i <= n,
                n == self.address@.len(),
                forall|j: int| 0 <= j < i ==> !spec_ip_is_multicast(self.address@[j].ip),
            decreases n - i,
        {
            if self.address[i].is_multicast() {
                return true;
            }
            i = i + 1;
        }
        false
    }
}

/// The record with its mutable fields overwritten from one raw record; the
/// identity fields stay fixed.
pub open spec fn spec_refreshed(n: NicView, r: RawAdapter) -> NicView {
    NicView {
        is_up: r.is_up,
        address: spec_addresses(r.unicast@),
        gateway: spec_ip_list(r.gateway@),
        dns: spec_ip_list(r.dns@),
        ..n
    }
}

impl Nic {
    /// Refreshes the record from a fresh walk of the raw adapter list: the
    /// first raw record with the same `guid` and `index` overwrites
    /// `is_up`, `address`, `gateway` and `dns`; when none matches, the
    /// record is left unchanged. `guid`, `index` and `friendly_name` never
    /// change.
    pub fn update(&mut self, raw: &Vec<RawAdapter>)
        ensures
            final(self)@.guid == old(self)@.guid,
            final(self)@.index == old(self)@.index,
            final(self)@.friendly_name == old(self)@.friendly_name,
            forall|j: int|
                (0 <= j < raw@.len() && nic_same_identity(spec_nic_of(raw@[j]), old(self)@) && (
                forall|k: int|
                    0 <= k < j ==> !nic_same_identity(
                        spec_nic_of(#[trigger] raw@[k]),
                        old(self)@,
                    ))) ==> final(self)@ == spec_refreshed(old(self)@, raw@[j]),
            (forall|j: int|
                0 <= j < raw@.len() ==> !nic_same_identity(
                    spec_nic_of(#[trigger] raw@[j]),
                    old(self)@,
                )) ==> final(self)@ == old(self)@,
    {
        let n = raw.len();
        let mut i: usize = 0;
        while i < n
            invariant
                i <= n,
                n == raw@.len(),
                *self == *old(self),
                forall|k: int|
                    0 <= k < i ==> !nic_same_identity(spec_nic_of(#[trigger] raw@[k]), old(self)@),
            decreases n - i,
        {
            if self.guid == raw[i].guid && self.index == raw[i].index {
                self.is_up = raw[i].is_up;
                self.address = unicast_addresses(&raw[i].unicast);
                self.gateway = collect_ips(&raw[i].gateway);
                self.dns = collect_ips(&raw[i].dns);
                return ;
            }
            i = i + 1;
        }
    }
}

/// The records a raw walk yields, one per raw adapter, in walk order.
pub open spec fn spec_nics_of(rs: Seq<RawAdapter>) -> Seq<NicView> {
    rs.map_values(|r: RawAdapter| spec_nic_of(r))
}

/// The abstract values of a record list.
pub open spec fn nic_views(ns: Seq<Nic>) -> Seq<NicView> {
    ns.map_values(|n: Nic| n@)
}

/// Normalizes a walked raw adapter list into adapter records, one per raw
/// record, in walk order.
pub fn nic(raw: &Vec<RawAdapter>) -> (r: Vec<Nic>)
    ensures
        nic_views(r@) == spec_nics_of(raw@),
{
    let mut r: Vec<Nic> = Vec::new();
    let n = raw.len();
    let mut i: usize = 0;
    while i < n
        invariant
            i <= n,
            n == raw@.len(),
            r@.len() == i,
            forall|j: int| 0 <= j < i ==> (#[trigger] r@[j])@ == spec_nic_of(raw@[j]),
        decreases n - i,
    {
        let one = Nic {
            index: raw[i].index,
            guid: raw[i].guid.clone(),
            friendly_name: raw[i].friendly_name.clone(),
            is_up: raw[i].is_up,
            address: unicast_addresses(&raw[i].unicast),
            gateway: collect_ips(&raw[i].gateway),
            dns: collect_ips(&raw[i].dns),
        };
        r.push(one);
        i = i + 1;
    }
    proof {
        assert(nic_views(r@) =~= spec_nics_of(raw@));
    }
    r
}

/// The adapters a walk yields once loopback adapters are dropped, in walk
/// order.
pub open spec fn spec_available_adapters(rs: Seq<RawAdapter>) -> Seq<NicView>
    decreases rs.len(),
{
    if rs.len() == 0 {
        Seq::empty()
    } else {
        spec_available_adapters(rs.drop_last()) + (
        if spec_nic_is_loopback(spec_nic_of(rs.last())) {
            Seq::empty()
        } else {
            seq![spec_nic_of(rs.last())]
        })
    }
}

/// Normalizes a walked raw adapter list and keeps the non-loopback
/// adapters, in walk order.
pub fn get_adapters(raw: &Vec<RawAdapter>) -> (r: Vec<Nic>)
    ensures
        nic_views(r@) == spec_available_adapters(raw@),
{
    let all = nic(raw);
    proof {
        assert(nic_views(all@).len() == all@.len());
        assert(spec_nics_of(raw@).len() == raw@.len());
    }
    let mut r: Vec<Nic> = Vec::new();
    let n = all.len();
    let mut i: usize = 0;
    while i < n
        invariant
            i <= n,
            n == all@.len() == raw@.len(),
            nic_views(all@) == spec_nics_of(raw@),
            nic_views(r@) == spec_available_adapters(raw@.take(i as int)),
        decreases n - i,
    {
        proof {
            assert(raw@.take(i + 1).drop_last() =~= raw@.take(i as int));
            assert(raw@.take(i + 1).last() == raw@[i as int]);
            assert(nic_views(all@)[i as int] == all@[i as int]@);
        }
        let keep = !all[i].is_loopback();
        if keep {
            let one = all[i].clone();
            r.push(one);
        }
        proof {
            assert(nic_views(r@) =~= spec_available_adapters(raw@.take(i + 1)));
        }
        i = i + 1;
    }
    proof {
        assert(raw@.take(raw@.len() as int) =~= raw@);
    }
    r
}

} // verus!
