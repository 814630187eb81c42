//! Which addresses a webhook may be sent to.
//!
//! A target that is, or resolves to, an address inside the operator's own
//! network is refused unless the operator allows it. A host name is pinned to
//! the addresses that were checked, so that the request cannot go elsewhere.
use crate::text;
use vstd::prelude::*;

verus! {

/// An IPv4 address, by its octets.
#[derive(Debug, Clone, Copy, PartialEq, Eq, Structural)]
pub struct Ipv4 {
    pub a: u8,
    pub b: u8,
    pub c: u8,
    pub d: u8,
}

/// An IPv6 address, by its segments.
#[derive(Debug, Clone, Copy, PartialEq, Eq, Structural)]
pub struct Ipv6 {
    pub s0: u16,
    pub s1: u16,
    pub s2: u16,
    pub s3: u16,
    pub s4: u16,
    pub s5: u16,
    pub s6: u16,
    pub s7: u16,
}

/// An address.
#[derive(Debug, Clone, Copy, PartialEq, Eq, Structural)]
pub enum IpAddr {
    V4(Ipv4),
    V6(Ipv6),
}

/// Loopback, unspecified, link-local, private, shared, multicast and broadcast
/// addresses.
pub open spec fn private_v4(ip: Ipv4) -> bool {
    ||| ip.a == 127
    ||| ip.a == 0 && ip.b == 0 && ip.c == 0 && ip.d == 0
    ||| ip.a == 169 && ip.b == 254
    ||| ip.a == 10
    ||| ip.a == 172 && 16 <= ip.b <= 31
    ||| ip.a == 192 && ip.b == 168
    ||| ip.a == 100 && 64 <= ip.b <= 127
    ||| 224 <= ip.a <= 239
    ||| ip.a == 255 && ip.b == 255 && ip.c == 255 && ip.d == 255
}

/// The first five segments are zero.
pub open spec fn starts_with_zeros(ip: Ipv6) -> bool {
    ip.s0 == 0 && ip.s1 == 0 && ip.s2 == 0 && ip.s3 == 0 && ip.s4 == 0
}

/// The IPv4 address in the last two segments.
pub open spec fn embedded_v4(ip: Ipv6) -> Ipv4 {
    Ipv4 {
        a: (ip.s6 / 256) as u8,
        b: (ip.s6 % 256) as u8,
        c: (ip.s7 / 256) as u8,
        d: (ip.s7 % 256) as u8,
    }
}

/// The address belongs to the operator's own network, or to no single host.
pub open spec fn private(ip: IpAddr) -> bool {
    match ip {
        IpAddr::V4(v4) => private_v4(v4),
        IpAddr::V6(v6) => {
            if starts_with_zeros(v6) && v6.s5 == 0 && v6.s6 == 0 && v6.s7 <= 1 {
                true
            } else if starts_with_zeros(v6) && (v6.s5 == 0xffff || v6.s5 == 0) {
                private_v4(embedded_v4(v6))
            } else {
                ||| 0xfc00 <= v6.s0 <= 0xfdff
                ||| 0xfe80 <= v6.s0 <= 0xfebf
                ||| 0xff00 <= v6.s0
            }
        },
    }
}

fn is_private_v4(ip: Ipv4) -> (r: bool)
    ensures
        r == private_v4(ip),
{
    ip.a == 127 || (ip.a == 0 && ip.b == 0 && ip.c == 0 && ip.d == 0) || (ip.a == 169 && ip.b == 254)
        || ip.a == 10 || (ip.a == 172 && 16 <= ip.b && ip.b <= 31) || (ip.a == 192 && ip.b == 168)
        || (ip.a == 100 && 64 <= ip.b && ip.b <= 127) || (224 <= ip.a && ip.a <= 239) || (ip.a == 255
        && ip.b == 255 && ip.c == 255 && ip.d == 255)
}

/// Whether a webhook to the address is refused unless private targets are
/// allowed. An IPv6 address that stands for an IPv4 address is judged by it.
pub fn is_private_target(ip: IpAddr) -> (r: bool)
    ensures
        r == private(ip),
{
    match ip {
        IpAddr::V4(v4) => is_private_v4(v4),
        IpAddr::V6(v6) => {
            let zeros: bool = v6.s0 == 0 && v6.s1 == 0 && v6.s2 == 0 && v6.s3 == 0 && v6.s4 == 0;
            if zeros && v6.s5 == 0 && v6.s6 == 0 && v6.s7 <= 1 {
                return true;
            }
            if zeros && (v6.s5 == 0xffff || v6.s5 == 0) {
                return is_private_v4(
                    Ipv4 {
                        a: (v6.s6 / 256) as u8,
                        b: (v6.s6 % 256) as u8,
                        c: (v6.s7 / 256) as u8,
                        d: (v6.s7 % 256) as u8,
                    },
                );
            }
            (0xfc00 <= v6.s0 && v6.s0 <= 0xfdff) || (0xfe80 <= v6.s0 && v6.s0 <= 0xfebf) || 0xff00
                <= v6.s0
        },
    }
}

/// An IPv4 address from its octets.
pub open spec fn from_octets(o: Seq<u8>) -> Ipv4 {
    Ipv4 { a: o[0], b: o[1], c: o[2], d: o[3] }
}

/// An IPv6 address from its segments.
pub open spec fn from_segments(s: Seq<u16>) -> Ipv6 {
    Ipv6 { s0: s[0], s1: s[1], s2: s[2], s3: s[3], s4: s[4], s5: s[5], s6: s[6], s7: s[7] }
}

/// The host of a URL.
#[derive(Debug, PartialEq)]
pub enum UrlHost {
    Domain(String),
    /// An IPv4 address, by its octets.
    V4([u8; 4]),
    /// An IPv6 address, by its segments.
    V6([u16; 8]),
}

/// What a URL says about where a request goes.
#[derive(Debug, PartialEq)]
pub struct UrlParts {
    pub scheme: String,
    pub host: Option<UrlHost>,
    /// The port, or the scheme's own.
    pub port: Option<u16>,
}

/// A URL's host as contracts see it.
pub enum HostModel {
    Domain(Seq<char>),
    Address(IpAddr),
}

/// A URL as contracts see it.
pub struct UrlModel {
    pub scheme: Seq<char>,
    pub host: Option<HostModel>,
    pub port: Option<u16>,
}

impl View for UrlParts {
    type V = UrlModel;

    open spec fn view(&self) -> UrlModel {
        UrlModel {
            scheme: self.scheme@,
            host: match self.host {
                Some(UrlHost::Domain(d)) => Some(HostModel::Domain(d@)),
                Some(UrlHost::V4(o)) => Some(HostModel::Address(IpAddr::V4(from_octets(o@)))),
                Some(UrlHost::V6(s)) => Some(HostModel::Address(IpAddr::V6(from_segments(s@)))),
                None => None,
            },
            port: self.port,
        }
    }
}

/// What came of parsing a URL, as contracts see it.
pub open spec fn url_view(r: Result<UrlParts, String>) -> Result<UrlModel, Seq<char>> {
    match r {
        Ok(u) => Ok(u@),
        Err(e) => Err(e@),
    }
}

/// What `url::Url::parse` makes of a text.
pub uninterp spec fn parsed_url(url: Seq<char>) -> Result<UrlModel, Seq<char>>;

/// `url::Url::parse`, with the scheme, the host and the port of the URL, or
/// the error's text.
#[verifier::external_body]
fn parse_url(url: &str) -> (r: Result<UrlParts, String>)
    ensures
        url_view(r) == parsed_url(url@),
{
    let u = url::Url::parse(url).map_err(|e| e.to_string())?;
    let host = u.host().map(
        |h|
            match h {
                url::Host::Domain(d) => UrlHost::Domain(d.to_owned()),
                url::Host::Ipv4(v4) => UrlHost::V4(v4.octets()),
                url::Host::Ipv6(v6) => UrlHost::V6(v6.segments()),
            },
    );
    Ok(UrlParts { scheme: u.scheme().to_owned(), host, port: u.port_or_known_default() })
}

/// Why a target is refused.
#[derive(Debug, PartialEq)]
pub enum Refusal {
    /// The text is no URL; the parser's own words.
    InvalidUrl(String),
    /// Neither http nor https.
    UnsupportedScheme(String),
    NoHost,
    UnknownPort,
    /// The URL names a private address.
    PrivateTarget(IpAddr),
    /// The host name has no address.
    Unresolved(String),
    /// The host name resolves, among others, to a private address.
    PrivateResolution { host: String, ip: IpAddr },
}

/// A refusal as contracts see it.
pub enum RefusalModel {
    InvalidUrl(Seq<char>),
    UnsupportedScheme(Seq<char>),
    NoHost,
    UnknownPort,
    PrivateTarget(IpAddr),
    Unresolved(Seq<char>),
    PrivateResolution { host: Seq<char>, ip: IpAddr },
}

impl View for Refusal {
    type V = RefusalModel;

    open spec fn view(&self) -> RefusalModel {
        match *self {
            Refusal::InvalidUrl(e) => RefusalModel::InvalidUrl(e@),
            Refusal::UnsupportedScheme(s) => RefusalModel::UnsupportedScheme(s@),
            Refusal::NoHost => RefusalModel::NoHost,
            Refusal::UnknownPort => RefusalModel::UnknownPort,
            Refusal::PrivateTarget(ip) => RefusalModel::PrivateTarget(ip),
            Refusal::Unresolved(h) => RefusalModel::Unresolved(h@),
            Refusal::PrivateResolution { host, ip } => RefusalModel::PrivateResolution {
                host: host@,
                ip,
            },
        }
    }
}

/// What is to be done about a target.
#[derive(Debug, PartialEq)]
pub enum Preflight {
    /// The URL names an address that may be used as it is.
    Allowed,
    /// The host name has to be resolved and pinned.
    Resolve { host: String, port: u16 },
    Refused(Refusal),
}

/// The same, as contracts see it.
pub enum PreflightModel {
    Allowed,
    Resolve { host: Seq<char>, port: u16 },
    Refused(RefusalModel),
}

impl View for Preflight {
    type V = PreflightModel;

    open spec fn view(&self) -> PreflightModel {
        match *self {
            Preflight::Allowed => PreflightModel::Allowed,
            Preflight::Resolve { host, port } => PreflightModel::Resolve { host: host@, port },
            Preflight::Refused(r) => PreflightModel::Refused(r@),
        }
    }
}

/// A host name and the addresses that a request to it may use.
#[derive(Debug, PartialEq)]
pub struct DeliveryPin {
    pub host: String,
    pub addrs: Vec<(IpAddr, u16)>,
}

/// The scheme is http or https, in any case.
pub open spec fn web_scheme(scheme: Seq<char>) -> bool {
    text::same_ignoring_case(scheme, "http"@) || text::same_ignoring_case(scheme, "https"@)
}

/// What is to be done about a URL.
pub open spec fn verdict(allow_private: bool, url: Result<UrlModel, Seq<char>>) -> PreflightModel {
    match url {
        Err(e) => PreflightModel::Refused(RefusalModel::InvalidUrl(e)),
        Ok(u) => if !web_scheme(u.scheme) {
            PreflightModel::Refused(RefusalModel::UnsupportedScheme(u.scheme))
        } else {
            match (u.host, u.port) {
                (None, _) => PreflightModel::Refused(RefusalModel::NoHost),
                (Some(_), None) => PreflightModel::Refused(RefusalModel::UnknownPort),
                (Some(HostModel::Address(ip)), Some(_)) => if private(ip) && !allow_private {
                    PreflightModel::Refused(RefusalModel::PrivateTarget(ip))
                } else {
                    PreflightModel::Allowed
                },
                (Some(HostModel::Domain(host)), Some(port)) => PreflightModel::Resolve {
                    host,
                    port,
                },
            }
        },
    }
}

/// The first private address, if there is one.
pub open spec fn first_private(ips: Seq<IpAddr>) -> Option<IpAddr>
    decreases ips.len(),
{
    if ips.len() == 0 {
        None
    } else if private(ips[0]) {
        Some(ips[0])
    } else {
        first_private(ips.drop_first())
    }
}

/// Each address with the port.
pub open spec fn with_port(ips: Seq<IpAddr>, port: u16) -> Seq<(IpAddr, u16)> {
    Seq::new(ips.len(), |i: int| (ips[i], port))
}

/// The check that every target goes through before anything is sent.
#[derive(Debug, Clone, Copy, PartialEq, Eq, Structural)]
pub struct SsrfGuard {
    pub allow_private: bool,
}

impl SsrfGuard {
    /// What is to be done about a URL.
    pub fn check(&self, url: &str) -> (r: Preflight)
        ensures
            r@ == verdict(self.allow_private, parsed_url(url@)),
    {
        self.check_parts(parse_url(url))
    }

    /// What is to be done about a URL that has been parsed.
    pub fn check_parts(&self, parsed: Result<UrlParts, String>) -> (r: Preflight)
        ensures
            r@ == verdict(self.allow_private, url_view(parsed)),
    {
        let u: UrlParts = match parsed {
            Ok(u) => u,
            Err(e) => return Preflight::Refused(Refusal::InvalidUrl(e)),
        };
        let scheme: Vec<char> = text::to_chars(u.scheme.as_str());
        let http: Vec<char> = text::to_chars("http");
        let https: Vec<char> = text::to_chars("https");
        if !text::eq_ignore_case(scheme.as_slice(), http.as_slice()) && !text::eq_ignore_case(
            scheme.as_slice(),
            https.as_slice(),
        ) {
            return Preflight::Refused(Refusal::UnsupportedScheme(u.scheme));
        }
        let host: UrlHost = match u.host {
            Some(host) => host,
            None => return Preflight::Refused(Refusal::NoHost),
        };
        let port: u16 = match u.port {
            Some(port) => port,
            None => return Preflight::Refused(Refusal::UnknownPort),
        };
        let ip: IpAddr = match host {
            UrlHost::Domain(host) => return Preflight::Resolve { host, port },
            UrlHost::V4(o) => IpAddr::V4(Ipv4 { a: o[0], b: o[1], c: o[2], d: o[3] }),
            UrlHost::V6(s) => IpAddr::V6(
                Ipv6 {
                    s0: s[0],
                    s1: s[1],
                    s2: s[2],
                    s3: s[3],
                    s4: s[4],
                    s5: s[5],
                    s6: s[6],
                    s7: s[7],
                },
            ),
        };
        if is_private_target(ip) && !self.allow_private {
            Preflight::Refused(Refusal::PrivateTarget(ip))
        } else {
            Preflight::Allowed
        }
    }

    /// Pins a host name to the addresses it resolved to. One private address
    /// among them refuses the target.
    pub fn pin(&self, host: String, port: u16, ips: &Vec<IpAddr>) -> (r: Result<DeliveryPin, Refusal>)
        ensures
            match r {
                Ok(pin) => {
                    &&& ips@.len() > 0
                    &&& self.allow_private || first_private(ips@) is None
                    &&& pin.host@ == host@
                    &&& pin.addrs@ == with_port(ips@, port)
                },
                Err(e) => if ips@.len() == 0 {
                    e@ == RefusalModel::Unresolved(host@)
                } else {
                    &&& !self.allow_private
                    &&& first_private(ips@) is Some
                    &&& e@ == (RefusalModel::PrivateResolution {
                        host: host@,
                        ip: first_private(ips@)->0,
                    })
                },
            },
    {
        if ips.len() == 0 {
            return Err(Refusal::Unresolved(host));
        }
        let mut addrs: Vec<(IpAddr, u16)> = Vec::new();
        let mut i: usize = 0;
        assert(ips@.skip(0) =~= ips@);
        while i < ips.len()
            invariant
                i <= ips@.len(),
                ips@.len() > 0,
                addrs@ == with_port(ips@.take(i as int), port),
                !self.allow_private ==> first_private(ips@) == first_private(ips@.skip(i as int)),
            decreases ips@.len() - i,
        {
            let ip: IpAddr = ips[i];
            assert(ips@.skip(i as int)[0] == ip);
            if is_private_target(ip) && !self.allow_private {
                return Err(Refusal::PrivateResolution { host, ip });
            }
            assert(ips@.skip(i as int).drop_first() =~= ips@.skip(i + 1));
            addrs.push((ip, port));
            i = i + 1;
            assert(addrs@ =~= with_port(ips@.take(i as int), port));
        }
        assert(ips@.take(i as int) =~= ips@);
        assert(ips@.skip(i as int).len() == 0);
        Ok(DeliveryPin { host, addrs })
    }
}

/// With private targets not allowed, no address that a delivery may use is
/// private: neither one that the URL names nor one that its host is pinned to.
pub proof fn no_private_address_is_used(url: Result<UrlModel, Seq<char>>, ips: Seq<IpAddr>, i: int)
    ensures
        (verdict(false, url) is Allowed && url is Ok) ==> (url->Ok_0.host matches Some(
            HostModel::Address(ip),
        ) && !private(ip)),
        (first_private(ips) is None && 0 <= i < ips.len()) ==> !private(ips[i]),
    decreases ips.len(),
{
    if ips.len() > 0 && i > 0 {
        no_private_address_is_used(url, ips.drop_first(), i - 1);
    }
}

/// An IPv4 address as a number.
pub open spec fn number(ip: Ipv4) -> int {
    ip.a * 0x100_0000 + ip.b * 0x1_0000 + ip.c * 0x100 + ip.d
}

/// The private IPv4 addresses by their blocks: 127.0.0.0/8, 10.0.0.0/8,
/// 172.16.0.0/12, 192.168.0.0/16, 169.254.0.0/16, 100.64.0.0/10, 224.0.0.0/4, and the
/// two addresses of all zeros and all ones.
pub proof fn private_blocks_are_closed(ip: Ipv4)
    ensures
        private(IpAddr::V4(ip)) <==> {
            let n = number(ip);
            ||| 0x7f00_0000 <= n <= 0x7fff_ffff
            ||| 0x0a00_0000 <= n <= 0x0aff_ffff
            ||| 0xac10_0000 <= n <= 0xac1f_ffff
            ||| 0xc0a8_0000 <= n <= 0xc0a8_ffff
            ||| 0xa9fe_0000 <= n <= 0xa9fe_ffff
            ||| 0x6440_0000 <= n <= 0x647f_ffff
            ||| 0xe000_0000 <= n <= 0xefff_ffff
            ||| n == 0
            ||| n == 0xffff_ffff
        },
{
}

/// Wrapping an IPv4 address in an IPv6 one hides nothing: a mapped or a compatible
/// address is private where the address in it is, and the unspecified and the
/// loopback address are private. Of the others, fc00::/7, fe80::/10 and ff00::/8 are
/// private and the rest are not.
pub proof fn private_addresses_stay_private_in_v6(ip: Ipv4, v6: Ipv6)
    ensures
        ({
            let high = (ip.a * 256 + ip.b) as u16;
            let low = (ip.c * 256 + ip.d) as u16;
            let mapped = Ipv6 {
                s0: 0,
                s1: 0,
                s2: 0,
                s3: 0,
                s4: 0,
                s5: 0xffff,
                s6: high,
                s7: low,
            };
            let compatible = Ipv6 { s5: 0, ..mapped };
            &&& private(IpAddr::V6(mapped)) == private(IpAddr::V4(ip))
            &&& number(ip) > 1 ==> private(IpAddr::V6(compatible)) == private(IpAddr::V4(ip))
            &&& number(ip) <= 1 ==> private(IpAddr::V6(compatible))
        }),
        v6.s0 != 0 ==> (private(IpAddr::V6(v6)) <==> v6.s0 / 0x200 == 0x7e || v6.s0 / 0x40 == 0x3fa
            || v6.s0 / 0x100 == 0xff),
        v6.s0 == 0 && (v6.s1 != 0 || v6.s2 != 0 || v6.s3 != 0 || v6.s4 != 0 || (v6.s5 != 0 && v6.s5
            != 0xffff)) ==> !private(IpAddr::V6(v6)),
{
    let high = (ip.a * 256 + ip.b) as u16;
    let low = (ip.c * 256 + ip.d) as u16;
    assert(high / 256 == ip.a && high % 256 == ip.b);
    assert(low / 256 == ip.c && low % 256 == ip.d);
}

/// What becomes of a target. Only `http` and `https`, in whatever case, are sent to;
/// a URL needs a host and a port; an address is sent to exactly where it is not
/// private or private targets are allowed; a name is resolved first, with the port of
/// the URL.
pub proof fn targets_are_judged(allow_private: bool, u: UrlModel)
    ensures
        ({
            let r = verdict(allow_private, Ok(u));
            let web = text::same_ignoring_case(u.scheme, "http"@) || text::same_ignoring_case(
                u.scheme,
                "https"@,
            );
            &&& !web <==> r == PreflightModel::Refused(RefusalModel::UnsupportedScheme(u.scheme))
            &&& web && u.host is None <==> r == PreflightModel::Refused(RefusalModel::NoHost)
            &&& web && u.host is Some && u.port is None <==> r == PreflightModel::Refused(
                RefusalModel::UnknownPort,
            )
            &&& web && u.port is Some ==> match u.host {
                Some(HostModel::Address(ip)) => {
                    &&& r == PreflightModel::Allowed <==> allow_private || !private(ip)
                    &&& r == PreflightModel::Refused(RefusalModel::PrivateTarget(ip))
                        <==> !allow_private && private(ip)
                },
                Some(HostModel::Domain(host)) => r == (PreflightModel::Resolve {
                    host,
                    port: u.port->0,
                }),
                None => true,
            }
        }),
        forall|e: Seq<char>| #[trigger]
            verdict(allow_private, Err(e)) == PreflightModel::Refused(RefusalModel::InvalidUrl(e)),
{
}

/// The address for which a resolution is refused is the first private one of it, and
/// there is one exactly where some address is private.
pub proof fn the_first_private_address_is_named(ips: Seq<IpAddr>)
    ensures
        first_private(ips) is None <==> forall|i: int|
            0 <= i < ips.len() ==> !private(#[trigger] ips[i]),
        first_private(ips) matches Some(ip) ==> private(ip) && exists|i: int|
            0 <= i < ips.len() && #[trigger] ips[i] == ip && forall|j: int|
                0 <= j < i ==> !private(#[trigger] ips[j]),
    decreases ips.len(),
{
    if ips.len() > 0 {
        let rest = ips.drop_first();
        the_first_private_address_is_named(rest);
        if !private(ips[0]) {
            if let Some(ip) = first_private(rest) {
                let i = choose|i: int|
                    0 <= i < rest.len() && #[trigger] rest[i] == ip && forall|j: int|
                        0 <= j < i ==> !private(#[trigger] rest[j]);
                assert(ips[i + 1] == ip);
                assert forall|j: int| 0 <= j < i + 1 implies !private(#[trigger] ips[j]) by {
                    if j > 0 {
                        assert(ips[j] == rest[j - 1]);
                    }
                }
            } else {
                assert forall|i: int| 0 <= i < ips.len() implies !private(#[trigger] ips[i]) by {
                    if i > 0 {
                        assert(ips[i] == rest[i - 1]);
                    }
                }
            }
        } else {
            assert(ips[0] == first_private(ips)->0);
        }
    }
}

/// An address is read as its octets or segments stand: in network order, each in its
/// own place.
pub proof fn addresses_are_in_network_order(o: Seq<u8>, s: Seq<u16>)
    requires
        o.len() == 4,
        s.len() == 8,
    ensures
        number(from_octets(o)) == o[0] * 0x100_0000 + o[1] * 0x1_0000 + o[2] * 0x100 + o[3],
        ({
            let ip = from_segments(s);
            seq![ip.s0, ip.s1, ip.s2, ip.s3, ip.s4, ip.s5, ip.s6, ip.s7] == s
        }),
{
    let ip = from_segments(s);
    assert(seq![ip.s0, ip.s1, ip.s2, ip.s3, ip.s4, ip.s5, ip.s6, ip.s7] =~= s);
}

} // verus!
