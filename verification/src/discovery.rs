//! Backend discovery: static lists, Docker containers, or DNS names.
//!
//! Every strategy resolves to a set of [`Backend`]s carrying the IPv4 address,
//! an optional destination port (`None` keeps the original listen port), and the
//! L2 MAC the data plane rewrites the Ethernet destination to. What has to be
//! asked of the outside (a container list, resolved addresses, the neighbour
//! table) is handed in.

use vstd::prelude::*;
use crate::backend::{
    dedup_backends, dedup_keeps_the_backends, deduped, in_order, sort_backends, sorting_is_stable,
    sorting_keeps_the_backends, stable_sorted, views, Backend, BackendView,
};
use crate::config::{Config, Discovery, StaticRoute, Strategy};
use crate::net::{
    address_reads_back, addresses_are_dotted_decimal, endpoint, ipv4, mac, parse_endpoint, parse_ipv4, parse_mac,
    resolve_mac, resolved_mac, EndpointError, Ipv4Addr, MacError,
};
use crate::text::chars_of;

verus! {

/// Label by which compose names the service a container belongs to.
pub const SERVICE_LABEL: &'static str = "com.docker.compose.service";

/// Why discovery gives no backends. `index` counts routes or containers.
#[derive(Debug, Clone, Copy, PartialEq, Eq, Structural)]
pub enum DiscoverError {
    /// Strategy `static` without a list of routes.
    NoStaticRoutes,
    BadRouteIp { index: usize, error: EndpointError },
    BadRouteMac { index: usize, error: MacError },
    /// A route gives no MAC and the neighbour table has none.
    NoRouteMac { index: usize },
    /// Strategy `docker` with neither a network nor a service name.
    NoDockerTarget,
    BadContainerMac { index: usize, error: MacError },
    /// Strategy `dns` without a name to resolve.
    NoDnsTarget,
    /// No IPv4 address with a known MAC.
    NoDnsBackends,
}

/// A container's attachment to one network.
#[derive(Debug, Clone)]
pub struct Attachment {
    pub ip_address: Option<String>,
    pub mac_address: Option<String>,
}

/// What discovery reads of a running container. `networks` is in the order in
/// which it is walked; no name occurs twice in it, nor in `labels`.
#[derive(Debug, Clone)]
pub struct Container {
    pub labels: Option<Vec<(String, String)>>,
    pub names: Option<Vec<String>>,
    pub networks: Option<Vec<(String, Attachment)>>,
}

/// A resolved address. IPv6 is not routed.
#[derive(Debug, Clone, Copy, PartialEq, Eq, Structural)]
pub enum IpAddr {
    V4 { ip: Ipv4Addr },
    V6,
}

/// What to ask of the outside before [`discover`].
#[derive(Debug, Clone)]
pub enum DiscoveryRequest {
    /// Nothing.
    Static,
    /// The containers that match all of the filters; only running ones unless `all`.
    Docker { all: bool, filters: Vec<(String, Vec<String>)> },
    /// The addresses of `host`, resolved for `port`.
    Dns { host: String, port: u16 },
}

/// The characters of an optional text.
pub open spec fn opt_view(s: Option<String>) -> Option<Seq<char>> {
    match s {
        Some(s) => Some(s@),
        None => None,
    }
}

/// The characters of an optional borrowed text.
pub open spec fn text_view(s: Option<&str>) -> Option<Seq<char>> {
    match s {
        Some(s) => Some(s@),
        None => None,
    }
}

/// What strategy and configuration ask of the outside: nothing, the running
/// containers (those of the configured network, if there is one), or the addresses of
/// a name.
pub open spec fn request_is(d: Discovery, r: Result<DiscoveryRequest, DiscoverError>) -> bool {
    match d.strategy {
        Strategy::Static => r matches Ok(DiscoveryRequest::Static),
        Strategy::Docker => match (d.network, d.target_service_name) {
            (None, None) => r matches Err(DiscoverError::NoDockerTarget),
            (None, Some(_)) => r matches Ok(DiscoveryRequest::Docker { all, filters }) && !all
                && filters@.len() == 0,
            (Some(net), _) => r matches Ok(DiscoveryRequest::Docker { all, filters }) && !all
                && filters@.len() == 1 && filters@[0].0@ == "network"@ && filters@[0].1@.len() == 1
                && filters@[0].1@[0]@ == net@,
        },
        Strategy::Dns => match d.target_service_name {
            None => r matches Err(DiscoverError::NoDnsTarget),
            Some(name) => r matches Ok(DiscoveryRequest::Dns { host, port }) && host@ == name@
                && port == (match d.target_port {
                Some(p) => p,
                None => 443,
            }),
        },
    }
}

/// What has to be asked of the outside to discover the backends of `cfg`.
pub fn discovery_request(cfg: &Config) -> (r: Result<DiscoveryRequest, DiscoverError>)
    ensures
        request_is(cfg.discovery, r),
{
    match cfg.discovery.strategy {
        Strategy::Static => Ok(DiscoveryRequest::Static),
        Strategy::Docker => {
            if cfg.discovery.network.is_none() && cfg.discovery.target_service_name.is_none() {
                return Err(DiscoverError::NoDockerTarget);
            }
            let mut filters: Vec<(String, Vec<String>)> = Vec::new();
            if let Some(net) = &cfg.discovery.network {
                let mut nets: Vec<String> = Vec::new();
                nets.push(net.clone());
                filters.push(("network".to_owned(), nets));
            }
            Ok(DiscoveryRequest::Docker { all: false, filters })
        },
        Strategy::Dns => match &cfg.discovery.target_service_name {
            None => Err(DiscoverError::NoDnsTarget),
            Some(host) => Ok(
                DiscoveryRequest::Dns {
                    host: host.clone(),
                    port: cfg.discovery.target_port.unwrap_or(443),
                },
            ),
        },
    }
}

/// The backend of a static route: an explicit port wins over one in the address,
/// and a MAC that is not given is looked up.
pub open spec fn route_backend(
    route: StaticRoute,
    arp: Option<Seq<char>>,
    index: usize,
) -> Result<BackendView, DiscoverError> {
    match endpoint(route.ip@) {
        Err(error) => Err(DiscoverError::BadRouteIp { index, error }),
        Ok((ip, parsed_port)) => {
            let port = if route.port is Some {
                route.port
            } else {
                parsed_port
            };
            match route.mac {
                Some(text) => match mac(text@) {
                    Ok(m) => Ok(BackendView { ip, port, mac: m }),
                    Err(error) => Err(DiscoverError::BadRouteMac { index, error }),
                },
                None => match resolved_mac(arp, ip) {
                    Some(m) => Ok(BackendView { ip, port, mac: m }),
                    None => Err(DiscoverError::NoRouteMac { index }),
                },
            }
        },
    }
}

/// The backends of the first `n` routes, or the first error among them.
pub open spec fn route_backends(
    routes: Seq<StaticRoute>,
    arp: Option<Seq<char>>,
    n: nat,
) -> Result<Seq<BackendView>, DiscoverError>
    decreases n,
{
    if n == 0 {
        Ok(Seq::empty())
    } else {
        match route_backends(routes, arp, (n - 1) as nat) {
            Err(e) => Err(e),
            Ok(before) => match route_backend(routes[n - 1], arp, (n - 1) as usize) {
                Ok(b) => Ok(before.push(b)),
                Err(e) => Err(e),
            },
        }
    }
}

/// The backends that strategy `static` gives, in the order of the routes.
pub open spec fn static_backends(d: Discovery, arp: Option<Seq<char>>) -> Result<
    Seq<BackendView>,
    DiscoverError,
> {
    match d.static_routes {
        None => Err(DiscoverError::NoStaticRoutes),
        Some(routes) => route_backends(routes@, arp, routes@.len()),
    }
}

proof fn lemma_route_error_stays(
    routes: Seq<StaticRoute>,
    arp: Option<Seq<char>>,
    n: nat,
    m: nat,
)
    requires
        n <= m,
        route_backends(routes, arp, n) is Err,
    ensures
        route_backends(routes, arp, m) == route_backends(routes, arp, n),
    decreases m,
{
    if n < m {
        lemma_route_error_stays(routes, arp, n, (m - 1) as nat);
    }
}

/// `Ok` results hold the given backends, `Err` results are equal.
pub open spec fn discovered(
    r: Result<Vec<Backend>, DiscoverError>,
    expected: Result<Seq<BackendView>, DiscoverError>,
) -> bool {
    match (r, expected) {
        (Ok(backends), Ok(list)) => views(backends@) == list,
        (Err(e), Err(f)) => e == f,
        _ => false,
    }
}

fn resolve_route(route: &StaticRoute, arp: Option<&str>, index: usize) -> (r: Result<
    Backend,
    DiscoverError,
>)
    ensures
        match r {
            Ok(b) => route_backend(*route, text_view(arp), index) == Ok::<
                BackendView,
                DiscoverError,
            >(b@),
            Err(e) => route_backend(*route, text_view(arp), index) == Err::<
                BackendView,
                DiscoverError,
            >(e),
        },
{
    let (ip, parsed_port) = match parse_endpoint(route.ip.as_str()) {
        Ok(parsed) => parsed,
        Err(error) => return Err(DiscoverError::BadRouteIp { index, error }),
    };
    let port: Option<u16> = if route.port.is_some() {
        route.port
    } else {
        parsed_port
    };
    let mac = match &route.mac {
        Some(s) => match parse_mac(s.as_str()) {
            Ok(m) => m,
            Err(error) => return Err(DiscoverError::BadRouteMac { index, error }),
        },
        None => match resolve_mac(arp, ip) {
            Some(m) => m,
            None => return Err(DiscoverError::NoRouteMac { index }),
        },
    };
    Ok(Backend { ip, port, mac })
}

/// Strategy `static`: the configured routes. `arp` is the text of the host
/// neighbour table, if it could be read.
pub fn discover_static(cfg: &Config, arp: Option<&str>) -> (r: Result<Vec<Backend>, DiscoverError>)
    ensures
        discovered(r, static_backends(cfg.discovery, text_view(arp))),
{
    let routes = match &cfg.discovery.static_routes {
        Some(routes) => routes,
        None => return Err(DiscoverError::NoStaticRoutes),
    };
    let ghost table = text_view(arp);
    let mut backends: Vec<Backend> = Vec::new();
    let mut i: usize = 0;
    assert(views(backends@) =~= Seq::empty());
    while i < routes.len()
        invariant
            i <= routes@.len(),
            cfg.discovery.static_routes == Some(*routes),
            table == text_view(arp),
            route_backends(routes@, table, i as nat) == Ok::<Seq<BackendView>, DiscoverError>(
                views(backends@),
            ),
        decreases routes@.len() - i,
    {
        let ghost before = views(backends@);
        match resolve_route(&routes[i], arp, i) {
            Ok(b) => {
                backends.push(b);
                assert(views(backends@) =~= before.push(b@));
            },
            Err(e) => {
                proof {
                    lemma_route_error_stays(routes@, table, (i + 1) as nat, routes@.len());
                }
                return Err(e);
            },
        }
        i = i + 1;
    }
    Ok(backends)
}

/// The value filed under `key`, if there is one.
pub open spec fn label_value(labels: Seq<(String, String)>, key: Seq<char>) -> Option<Seq<char>>
    decreases labels.len(),
{
    if labels.len() == 0 {
        None
    } else if labels[0].0@ == key {
        Some(labels[0].1@)
    } else {
        label_value(labels.skip(1), key)
    }
}

/// The attachment to network `name`, if there is one.
pub open spec fn attachment_to(networks: Seq<(String, Attachment)>, name: Seq<char>) -> Option<
    Attachment,
>
    decreases networks.len(),
{
    if networks.len() == 0 {
        None
    } else if networks[0].0@ == name {
        Some(networks[0].1)
    } else {
        attachment_to(networks.skip(1), name)
    }
}

/// `s` without the slashes it starts with.
pub open spec fn without_slashes(s: Seq<char>) -> Seq<char>
    decreases s.len(),
{
    if s.len() > 0 && s[0] == '/' {
        without_slashes(s.skip(1))
    } else {
        s
    }
}

/// Whether `part` occurs somewhere in `s`.
pub open spec fn contains_text(s: Seq<char>, part: Seq<char>) -> bool {
    exists|i: int|
        0 <= i && i + part.len() <= s.len() && #[trigger] s.subrange(i, i + part.len()) == part
}

/// Whether a container belongs to a service: by its compose label, or because
/// one of its names contains the service name.
pub open spec fn serves(c: Container, service: Seq<char>) -> bool {
    ||| c.labels is Some && label_value(c.labels->0@, SERVICE_LABEL@) == Some(service)
    ||| c.names is Some && exists|i: int|
        0 <= i < c.names->0@.len() && contains_text(
            without_slashes((#[trigger] c.names->0@[i])@),
            service,
        )
}

/// A text that is given and not empty.
pub open spec fn given(s: Option<String>) -> Option<Seq<char>> {
    match s {
        Some(s) => if s@.len() > 0 {
            Some(s@)
        } else {
            None
        },
        None => None,
    }
}

/// Whether an attachment has an IPv4 address.
pub open spec fn usable(a: Attachment) -> bool {
    given(a.ip_address) is Some && ipv4(given(a.ip_address)->0) is Some
}

/// The first usable attachment, if there is one.
pub open spec fn first_usable(networks: Seq<(String, Attachment)>) -> Option<Attachment>
    decreases networks.len(),
{
    if networks.len() == 0 {
        None
    } else if usable(networks[0].1) {
        Some(networks[0].1)
    } else {
        first_usable(networks.skip(1))
    }
}

/// The attachment through which a container is reached: the one to the
/// configured network, or without one the first usable one.
pub open spec fn chosen_attachment(c: Container, network: Option<Seq<char>>) -> Option<Attachment> {
    match (c.networks, network) {
        (None, _) => None,
        (Some(networks), Some(name)) => attachment_to(networks@, name),
        (Some(networks), None) => first_usable(networks@),
    }
}

/// The backend of an attachment, `None` if it has no usable address or no known
/// MAC.
pub open spec fn attachment_backend(
    a: Attachment,
    port: Option<u16>,
    arp: Option<Seq<char>>,
    index: usize,
) -> Result<Option<BackendView>, DiscoverError> {
    if !usable(a) {
        Ok(None)
    } else {
        let ip = ipv4(given(a.ip_address)->0)->0;
        match given(a.mac_address) {
            Some(text) => match mac(text) {
                Ok(m) => Ok(Some(BackendView { ip, port, mac: m })),
                Err(error) => Err(DiscoverError::BadContainerMac { index, error }),
            },
            None => match resolved_mac(arp, ip) {
                Some(m) => Ok(Some(BackendView { ip, port, mac: m })),
                None => Ok(None),
            },
        }
    }
}

/// The backend of a container, `None` if it is passed over.
pub open spec fn container_backend(
    d: Discovery,
    c: Container,
    arp: Option<Seq<char>>,
    index: usize,
) -> Result<Option<BackendView>, DiscoverError> {
    if d.target_service_name is Some && !serves(c, d.target_service_name->0@) {
        Ok(None)
    } else {
        match chosen_attachment(c, opt_view(d.network)) {
            None => Ok(None),
            Some(a) => attachment_backend(a, d.target_port, arp, index),
        }
    }
}

/// The backends of the first `n` containers, or the first error among them.
pub open spec fn container_backends(
    d: Discovery,
    containers: Seq<Container>,
    arp: Option<Seq<char>>,
    n: nat,
) -> Result<Seq<BackendView>, DiscoverError>
    decreases n,
{
    if n == 0 {
        Ok(Seq::empty())
    } else {
        match container_backends(d, containers, arp, (n - 1) as nat) {
            Err(e) => Err(e),
            Ok(before) => match container_backend(d, containers[n - 1], arp, (n - 1) as usize) {
                Ok(Some(b)) => Ok(before.push(b)),
                Ok(None) => Ok(before),
                Err(e) => Err(e),
            },
        }
    }
}

/// The backends that strategy `docker` gives: those of the matching containers, by
/// address, with equal neighbours reduced to one.
pub open spec fn docker_backends(
    d: Discovery,
    containers: Seq<Container>,
    arp: Option<Seq<char>>,
) -> Result<Seq<BackendView>, DiscoverError> {
    if d.network is None && d.target_service_name is None {
        Err(DiscoverError::NoDockerTarget)
    } else {
        match container_backends(d, containers, arp, containers.len()) {
            Ok(list) => Ok(deduped(stable_sorted(list, false))),
            Err(e) => Err(e),
        }
    }
}

proof fn lemma_container_error_stays(
    d: Discovery,
    containers: Seq<Container>,
    arp: Option<Seq<char>>,
    n: nat,
    m: nat,
)
    requires
        n <= m,
        container_backends(d, containers, arp, n) is Err,
    ensures
        container_backends(d, containers, arp, m) == container_backends(d, containers, arp, n),
    decreases m,
{
    if n < m {
        lemma_container_error_stays(d, containers, arp, n, (m - 1) as nat);
    }
}

fn find_label(labels: &Vec<(String, String)>, key: &str) -> (at: Option<usize>)
    ensures
        match at {
            Some(i) => i < labels@.len() && label_value(labels@, key@) == Some(labels@[i as int].1@),
            None => label_value(labels@, key@) is None,
        },
{
    let wanted = key.to_owned();
    let mut i: usize = 0;
    assert(labels@.skip(0) =~= labels@);
    while i < labels.len()
        invariant
            i <= labels@.len(),
            wanted@ == key@,
            label_value(labels@.skip(i as int), key@) == label_value(labels@, key@),
        decreases labels@.len() - i,
    {
        assert(labels@.skip(i as int)[0] == labels@[i as int]);
        if labels[i].0 == wanted {
            return Some(i);
        }
        assert(labels@.skip(i as int).skip(1) =~= labels@.skip(i + 1));
        i = i + 1;
    }
    None
}

fn find_attachment<'a>(networks: &'a Vec<(String, Attachment)>, name: &String) -> (found: Option<
    &'a Attachment,
>)
    ensures
        match found {
            Some(a) => attachment_to(networks@, name@) == Some(*a),
            None => attachment_to(networks@, name@) is None,
        },
{
    let mut i: usize = 0;
    assert(networks@.skip(0) =~= networks@);
    while i < networks.len()
        invariant
            i <= networks@.len(),
            attachment_to(networks@.skip(i as int), name@) == attachment_to(networks@, name@),
        decreases networks@.len() - i,
    {
        assert(networks@.skip(i as int)[0] == networks@[i as int]);
        if networks[i].0 == *name {
            return Some(&networks[i].1);
        }
        assert(networks@.skip(i as int).skip(1) =~= networks@.skip(i + 1));
        i = i + 1;
    }
    None
}

/// The address of an attachment, if it is usable.
fn address_of(a: &Attachment) -> (ip: Option<Ipv4Addr>)
    ensures
        ip is Some <==> usable(*a),
        ip is Some ==> ip == ipv4(given(a.ip_address)->0),
{
    let text = match &a.ip_address {
        Some(s) => chars_of(s.as_str()),
        None => return None,
    };
    if text.len() == 0 {
        return None;
    }
    parse_ipv4(text.as_slice())
}

fn find_usable<'a>(networks: &'a Vec<(String, Attachment)>) -> (found: Option<&'a Attachment>)
    ensures
        match found {
            Some(a) => first_usable(networks@) == Some(*a),
            None => first_usable(networks@) is None,
        },
{
    let mut i: usize = 0;
    assert(networks@.skip(0) =~= networks@);
    while i < networks.len()
        invariant
            i <= networks@.len(),
            first_usable(networks@.skip(i as int)) == first_usable(networks@),
        decreases networks@.len() - i,
    {
        assert(networks@.skip(i as int)[0] == networks@[i as int]);
        if address_of(&networks[i].1).is_some() {
            return Some(&networks[i].1);
        }
        assert(networks@.skip(i as int).skip(1) =~= networks@.skip(i + 1));
        i = i + 1;
    }
    None
}

/// Whether `part` stands in `s` at `from`.
fn occurs_at(s: &[char], from: usize, part: &[char]) -> (b: bool)
    requires
        from + part@.len() <= s@.len(),
    ensures
        b == (s@.subrange(from as int, from + part@.len()) == part@),
{
    let len: usize = s.len();
    let mut i: usize = 0;
    while i < part.len()
        invariant
            i <= part@.len(),
            len == s@.len(),
            from + part@.len() <= len,
            forall|k: int| 0 <= k < i ==> s@[from + k] == part@[k],
        decreases part@.len() - i,
    {
        if s[from + i] != part[i] {
            assert(s@.subrange(from as int, from + part@.len())[i as int] != part@[i as int]);
            return false;
        }
        i = i + 1;
    }
    assert(s@.subrange(from as int, from + part@.len()) =~= part@);
    true
}

/// Whether the name, without leading slashes, contains `part`.
fn name_contains(name: &str, part: &str) -> (b: bool)
    ensures
        b == contains_text(without_slashes(name@), part@),
{
    let s = chars_of(name);
    let p = chars_of(part);
    let mut start: usize = 0;
    assert(s@.skip(0) =~= s@);
    while start < s.len() && s[start] == '/'
        invariant
            start <= s@.len(),
            s@ == name@,
            without_slashes(s@.skip(start as int)) == without_slashes(name@),
        decreases s@.len() - start,
    {
        assert(s@.skip(start as int).skip(1) =~= s@.skip(start + 1));
        assert(s@.skip(start as int)[0] == s@[start as int]);
        start = start + 1;
    }
    let ghost t = s@.skip(start as int);
    assert(t == without_slashes(name@)) by {
        if start < s@.len() {
            assert(t[0] == s@[start as int]);
        }
    }
    if s.len() - start < p.len() {
        return false;
    }
    let last: usize = s.len() - p.len();
    let mut i: usize = start;
    while i <= last
        invariant
            start <= i <= last + 1,
            last == s@.len() - p@.len(),
            p@.len() <= s@.len(),
            t == s@.skip(start as int),
            t == without_slashes(name@),
            p@ == part@,
            forall|k: int|
                0 <= k < i - start ==> #[trigger] t.subrange(k, k + p@.len()) != p@,
        decreases last + 1 - i,
    {
        assert(s@.subrange(i as int, i + p@.len()) =~= t.subrange(i - start, i - start + p@.len()));
        if occurs_at(s.as_slice(), i, p.as_slice()) {
            return true;
        }
        if i == last {
            assert forall|k: int| 0 <= k && k + p@.len() <= t.len() implies #[trigger] t.subrange(
                k,
                k + p@.len(),
            ) != p@ by {}
            return false;
        }
        i = i + 1;
    }
    false
}

fn belongs_to(c: &Container, service: &String) -> (b: bool)
    ensures
        b == serves(*c, service@),
{
    if let Some(labels) = &c.labels {
        if let Some(at) = find_label(labels, SERVICE_LABEL) {
            if labels[at].1 == *service {
                return true;
            }
        }
    }
    if let Some(names) = &c.names {
        let mut i: usize = 0;
        while i < names.len()
            invariant
                i <= names@.len(),
                c.names == Some(*names),
                forall|k: int|
                    0 <= k < i ==> !contains_text(
                        without_slashes((#[trigger] names@[k])@),
                        service@,
                    ),
            decreases names@.len() - i,
        {
            if name_contains(names[i].as_str(), service.as_str()) {
                assert(contains_text(without_slashes(c.names->0@[i as int]@), service@));
                return true;
            }
            i = i + 1;
        }
    }
    false
}

fn attached_backend(
    a: &Attachment,
    port: Option<u16>,
    arp: Option<&str>,
    index: usize,
) -> (r: Result<Option<Backend>, DiscoverError>)
    ensures
        match r {
            Ok(Some(b)) => attachment_backend(*a, port, text_view(arp), index) == Ok::<
                Option<BackendView>,
                DiscoverError,
            >(Some(b@)),
            Ok(None) => attachment_backend(*a, port, text_view(arp), index) == Ok::<
                Option<BackendView>,
                DiscoverError,
            >(None),
            Err(e) => attachment_backend(*a, port, text_view(arp), index) == Err::<
                Option<BackendView>,
                DiscoverError,
            >(e),
        },
{
    let ip = match address_of(a) {
        Some(ip) => ip,
        None => return Ok(None),
    };
    if let Some(s) = &a.mac_address {
        if !s.as_str().is_empty() {
            return match parse_mac(s.as_str()) {
                Ok(mac) => Ok(Some(Backend { ip, port, mac })),
                Err(error) => Err(DiscoverError::BadContainerMac { index, error }),
            };
        }
    }
    match resolve_mac(arp, ip) {
        Some(mac) => Ok(Some(Backend { ip, port, mac })),
        None => Ok(None),
    }
}

fn resolve_container(cfg: &Config, c: &Container, arp: Option<&str>, index: usize) -> (r: Result<
    Option<Backend>,
    DiscoverError,
>)
    ensures
        match r {
            Ok(Some(b)) => container_backend(cfg.discovery, *c, text_view(arp), index) == Ok::<
                Option<BackendView>,
                DiscoverError,
            >(Some(b@)),
            Ok(None) => container_backend(cfg.discovery, *c, text_view(arp), index) == Ok::<
                Option<BackendView>,
                DiscoverError,
            >(None),
            Err(e) => container_backend(cfg.discovery, *c, text_view(arp), index) == Err::<
                Option<BackendView>,
                DiscoverError,
            >(e),
        },
{
    if let Some(service) = &cfg.discovery.target_service_name {
        if !belongs_to(c, service) {
            return Ok(None);
        }
    }
    let networks = match &c.networks {
        Some(networks) => networks,
        None => return Ok(None),
    };
    // Prefer the configured network; otherwise take the first usable one.
    let candidate = match &cfg.discovery.network {
        Some(name) => find_attachment(networks, name),
        None => find_usable(networks),
    };
    match candidate {
        Some(a) => attached_backend(a, cfg.discovery.target_port, arp, index),
        None => Ok(None),
    }
}

/// Strategy `docker`: the given running containers that match the configured
/// network and service name. `arp` is the text of the host neighbour table, if
/// it could be read.
pub fn discover_docker(cfg: &Config, containers: &[Container], arp: Option<&str>) -> (r: Result<
    Vec<Backend>,
    DiscoverError,
>)
    ensures
        discovered(r, docker_backends(cfg.discovery, containers@, text_view(arp))),
{
    if cfg.discovery.network.is_none() && cfg.discovery.target_service_name.is_none() {
        return Err(DiscoverError::NoDockerTarget);
    }
    let ghost table = text_view(arp);
    let mut backends: Vec<Backend> = Vec::new();
    let mut i: usize = 0;
    assert(views(backends@) =~= Seq::empty());
    while i < containers.len()
        invariant
            i <= containers@.len(),
            cfg.discovery.network is Some || cfg.discovery.target_service_name is Some,
            table == text_view(arp),
            container_backends(cfg.discovery, containers@, table, i as nat) == Ok::<
                Seq<BackendView>,
                DiscoverError,
            >(views(backends@)),
        decreases containers@.len() - i,
    {
        let ghost before = views(backends@);
        match resolve_container(cfg, &containers[i], arp, i) {
            Ok(Some(b)) => {
                backends.push(b);
                assert(views(backends@) =~= before.push(b@));
            },
            Ok(None) => {},
            Err(e) => {
                proof {
                    lemma_container_error_stays(
                        cfg.discovery,
                        containers@,
                        table,
                        (i + 1) as nat,
                        containers@.len(),
                    );
                }
                return Err(e);
            },
        }
        i = i + 1;
    }
    let sorted = sort_backends(backends.as_slice(), false);
    Ok(dedup_backends(sorted.as_slice()))
}

/// The backends of the first `n` addresses: the IPv4 ones with a known MAC.
pub open spec fn address_backends(
    addrs: Seq<IpAddr>,
    port: Option<u16>,
    arp: Option<Seq<char>>,
    n: nat,
) -> Seq<BackendView>
    decreases n,
{
    if n == 0 {
        Seq::empty()
    } else {
        let before = address_backends(addrs, port, arp, (n - 1) as nat);
        match addrs[n - 1] {
            IpAddr::V4 { ip } => match resolved_mac(arp, ip) {
                Some(m) => before.push(BackendView { ip, port, mac: m }),
                None => before,
            },
            IpAddr::V6 => before,
        }
    }
}

/// The backends that strategy `dns` gives: by address, with equal neighbours
/// reduced to one, and at least one in all.
pub open spec fn dns_backends(d: Discovery, addrs: Seq<IpAddr>, arp: Option<Seq<char>>) -> Result<
    Seq<BackendView>,
    DiscoverError,
> {
    if d.target_service_name is None {
        Err(DiscoverError::NoDnsTarget)
    } else {
        let list = deduped(
            stable_sorted(address_backends(addrs, d.target_port, arp, addrs.len()), false),
        );
        if list.len() == 0 {
            Err(DiscoverError::NoDnsBackends)
        } else {
            Ok(list)
        }
    }
}

/// Strategy `dns`: the given addresses of the configured name. `arp` is the text
/// of the host neighbour table, if it could be read.
pub fn discover_dns(cfg: &Config, addrs: &[IpAddr], arp: Option<&str>) -> (r: Result<
    Vec<Backend>,
    DiscoverError,
>)
    ensures
        discovered(r, dns_backends(cfg.discovery, addrs@, text_view(arp))),
{
    if cfg.discovery.target_service_name.is_none() {
        return Err(DiscoverError::NoDnsTarget);
    }
    let ghost table = text_view(arp);
    let port: Option<u16> = cfg.discovery.target_port;
    let mut backends: Vec<Backend> = Vec::new();
    let mut i: usize = 0;
    assert(views(backends@) =~= Seq::empty());
    while i < addrs.len()
        invariant
            i <= addrs@.len(),
            port == cfg.discovery.target_port,
            table == text_view(arp),
            address_backends(addrs@, port, table, i as nat) == views(backends@),
        decreases addrs@.len() - i,
    {
        let ghost before = views(backends@);
        if let IpAddr::V4 { ip } = addrs[i] {
            if let Some(mac) = resolve_mac(arp, ip) {
                let b = Backend { ip, port, mac };
                backends.push(b);
                assert(views(backends@) =~= before.push(b@));
            }
        }
        i = i + 1;
    }
    let sorted = sort_backends(backends.as_slice(), false);
    let list = dedup_backends(sorted.as_slice());
    assert(views(list@).len() == list@.len());
    if list.len() == 0 {
        return Err(DiscoverError::NoDnsBackends);
    }
    Ok(list)
}

/// The backends that the configured strategy gives.
pub open spec fn expected_backends(
    d: Discovery,
    containers: Seq<Container>,
    addrs: Seq<IpAddr>,
    arp: Option<Seq<char>>,
) -> Result<Seq<BackendView>, DiscoverError> {
    match d.strategy {
        Strategy::Static => static_backends(d, arp),
        Strategy::Docker => docker_backends(d, containers, arp),
        Strategy::Dns => dns_backends(d, addrs, arp),
    }
}

/// Resolve the current backend set for `cfg` from the replies to
/// [`discovery_request`]: the container list, the resolved addresses (whichever
/// the strategy asked for) and the neighbour table.
pub fn discover(
    cfg: &Config,
    containers: &[Container],
    addrs: &[IpAddr],
    arp: Option<&str>,
) -> (r: Result<Vec<Backend>, DiscoverError>)
    ensures
        discovered(r, expected_backends(cfg.discovery, containers@, addrs@, text_view(arp))),
{
    match cfg.discovery.strategy {
        Strategy::Static => discover_static(cfg, arp),
        Strategy::Docker => discover_docker(cfg, containers, arp),
        Strategy::Dns => discover_dns(cfg, addrs, arp),
    }
}

/// Law: the backends that Docker or DNS give come in the order of their addresses
/// with no two equal neighbours, and DNS gives at least one.
pub proof fn found_backends_are_in_order(
    d: Discovery,
    containers: Seq<Container>,
    addrs: Seq<IpAddr>,
    arp: Option<Seq<char>>,
)
    requires
        d.strategy != Strategy::Static,
    ensures
        expected_backends(d, containers, addrs, arp) matches Ok(list) ==> {
            &&& in_order(list, false)
            &&& forall|i: int| 0 <= i < list.len() - 1 ==> #[trigger] list[i] != list[i + 1]
            &&& d.strategy == Strategy::Dns ==> list.len() > 0
        },
{
    let raw = if d.strategy == Strategy::Docker {
        match container_backends(d, containers, arp, containers.len()) {
            Ok(list) => list,
            Err(_) => Seq::empty(),
        }
    } else {
        address_backends(addrs, d.target_port, arp, addrs.len())
    };
    sorting_is_stable(raw, false);
    dedup_keeps_the_backends(stable_sorted(raw, false), false);
}

/// Whether a container belongs to a service, label by label and name by name: its first
/// compose label gives the service, or the service occurs in one of its names, behind the
/// slashes that the name starts with.
pub open spec fn is_member(c: Container, service: Seq<char>) -> bool {
    ||| c.labels is Some && exists|j: int|
        0 <= j < c.labels->0@.len() && (#[trigger] c.labels->0@[j]).0@
            == "com.docker.compose.service"@ && c.labels->0@[j].1@ == service && forall|k: int|
            0 <= k < j ==> (#[trigger] c.labels->0@[k]).0@ != "com.docker.compose.service"@
    ||| c.names is Some && exists|i: int, p: int|
        0 <= i < c.names->0@.len() && #[trigger] is_named_at(c.names->0@[i]@, service, p)
}

/// Whether a text starts with `m` slashes and no more.
pub open spec fn has_slashes(s: Seq<char>, m: int) -> bool {
    &&& 0 <= m <= s.len()
    &&& forall|q: int| 0 <= q < m ==> #[trigger] s[q] == '/'
    &&& m == s.len() || s[m] != '/'
}

/// Whether `service` stands at position `p` of a name, none of it in the slashes that the
/// name starts with.
pub open spec fn is_named_at(name: Seq<char>, service: Seq<char>, p: int) -> bool {
    &&& 0 <= p && p + service.len() <= name.len()
    &&& name.subrange(p, p + service.len()) == service
    &&& exists|m: int| #[trigger] has_slashes(name, m) && m <= p
}

proof fn lemma_label_value(labels: Seq<(String, String)>, key: Seq<char>)
    ensures
        match label_value(labels, key) {
            Some(value) => exists|j: int|
                0 <= j < labels.len() && (#[trigger] labels[j]).0@ == key && labels[j].1@ == value
                    && forall|k: int| 0 <= k < j ==> (#[trigger] labels[k]).0@ != key,
            None => forall|k: int| 0 <= k < labels.len() ==> (#[trigger] labels[k]).0@ != key,
        },
    decreases labels.len(),
{
    if labels.len() > 0 {
        if labels[0].0@ == key {
            assert(labels[0].1@ == labels[0].1@);
        } else {
            let rest = labels.skip(1);
            lemma_label_value(rest, key);
            if label_value(labels, key) is Some {
                let value = label_value(labels, key)->0;
                let j = choose|j: int|
                    0 <= j < rest.len() && (#[trigger] rest[j]).0@ == key && rest[j].1@ == value
                        && forall|k: int| 0 <= k < j ==> (#[trigger] rest[k]).0@ != key;
                assert(labels[j + 1] == rest[j]);
                assert forall|k: int| 0 <= k < j + 1 implies (#[trigger] labels[k]).0@ != key by {
                    if k > 0 {
                        assert(rest[k - 1] == labels[k]);
                    }
                }
            } else {
                assert forall|k: int| 0 <= k < labels.len() implies (#[trigger] labels[k]).0@
                    != key by {
                    if k > 0 {
                        assert(rest[k - 1] == labels[k]);
                    }
                }
            }
        }
    }
}

proof fn lemma_without_slashes(name: Seq<char>) -> (m: int)
    ensures
        has_slashes(name, m),
        without_slashes(name) == name.skip(m),
    decreases name.len(),
{
    if name.len() > 0 && name[0] == '/' {
        let rest = name.skip(1);
        let k = lemma_without_slashes(rest);
        assert forall|q: int| 0 <= q < k + 1 implies #[trigger] name[q] == '/' by {
            if q > 0 {
                assert(rest[q - 1] == name[q]);
            }
        }
        if k < rest.len() {
            assert(rest[k] == name[k + 1]);
        }
        assert(rest.skip(k) =~= name.skip(k + 1));
        k + 1
    } else {
        assert(name.skip(0) =~= name);
        0
    }
}

proof fn lemma_named(name: Seq<char>, service: Seq<char>)
    ensures
        contains_text(without_slashes(name), service) <==> exists|p: int|
            #[trigger] is_named_at(name, service, p),
{
    let m = lemma_without_slashes(name);
    let s = without_slashes(name);
    if contains_text(s, service) {
        let i = choose|i: int|
            0 <= i && i + service.len() <= s.len() && #[trigger] s.subrange(i, i + service.len())
                == service;
        let p = m + i;
        assert(name.subrange(p, p + service.len()) =~= s.subrange(i, i + service.len()));
        assert(is_named_at(name, service, p));
    }
    if exists|p: int| #[trigger] is_named_at(name, service, p) {
        let p = choose|p: int| #[trigger] is_named_at(name, service, p);
        let k = choose|k: int| #[trigger] has_slashes(name, k) && k <= p;
        if k < m {
            assert(name[k] == '/');
        }
        if m < k {
            assert(name[m] == '/');
        }
        let i = p - m;
        assert(s.subrange(i, i + service.len()) =~= name.subrange(p, p + service.len()));
    }
}

/// Law: a container belongs to a service if its compose label gives it, or if it occurs in
/// one of its names.
pub proof fn labels_and_names_decide_membership(c: Container, service: Seq<char>)
    ensures
        serves(c, service) <==> is_member(c, service),
{
    if c.labels is Some {
        lemma_label_value(c.labels->0@, "com.docker.compose.service"@);
        let labels = c.labels->0@;
        let key = "com.docker.compose.service"@;
        if exists|j: int|
            0 <= j < labels.len() && (#[trigger] labels[j]).0@ == key && labels[j].1@ == service
                && forall|k: int| 0 <= k < j ==> (#[trigger] labels[k]).0@ != key {
            let j = choose|j: int|
                0 <= j < labels.len() && (#[trigger] labels[j]).0@ == key && labels[j].1@
                    == service && forall|k: int| 0 <= k < j ==> (#[trigger] labels[k]).0@ != key;
            let value = label_value(labels, key)->0;
            let i = choose|i: int|
                0 <= i < labels.len() && (#[trigger] labels[i]).0@ == key && labels[i].1@ == value
                    && forall|k: int| 0 <= k < i ==> (#[trigger] labels[k]).0@ != key;
            assert(i == j);
        }
    }
    if c.names is Some {
        let names = c.names->0@;
        assert forall|i: int| 0 <= i < names.len() implies (contains_text(
            without_slashes((#[trigger] names[i])@),
            service,
        ) <==> exists|p: int| #[trigger] is_named_at(names[i]@, service, p)) by {
            lemma_named(names[i]@, service);
        }
    }
}

/// Whether network `a` of a container is the one it is reached through: the configured
/// one, or without one the first that has an IPv4 address.
pub open spec fn is_reached_through(c: Container, network: Option<String>, a: int) -> bool {
    &&& c.networks is Some
    &&& 0 <= a < c.networks->0@.len()
    &&& match network {
        Some(name) => c.networks->0@[a].0@ == name@ && forall|b: int|
            0 <= b < a ==> (#[trigger] c.networks->0@[b]).0@ != name@,
        None => has_address(c.networks->0@[a].1) && forall|b: int|
            0 <= b < a ==> !has_address((#[trigger] c.networks->0@[b]).1),
    }
}

/// Whether an attachment has an IPv4 address in dotted decimal.
pub open spec fn has_address(a: Attachment) -> bool {
    a.ip_address is Some && exists|ip: Ipv4Addr| a.ip_address->0@ == #[trigger] ip.text()
}

/// Whether an attachment gives address and MAC: the address in dotted decimal, and the
/// MAC if there is one, which is looked up otherwise.
pub open spec fn gives(a: Attachment, arp: Option<Seq<char>>, ip: Ipv4Addr, m: Seq<u8>) -> bool {
    &&& a.ip_address is Some
    &&& a.ip_address->0@ == ip.text()
    &&& if a.mac_address is Some && a.mac_address->0@.len() > 0 {
        mac(a.mac_address->0@) == Ok::<Seq<u8>, MacError>(m)
    } else {
        resolved_mac(arp, ip) == Some(m)
    }
}

proof fn lemma_usable(a: Attachment)
    ensures
        usable(a) <==> has_address(a),
        usable(a) ==> a.ip_address is Some && a.ip_address->0@ == ipv4(
            given(a.ip_address)->0,
        )->0.text(),
        forall|ip: Ipv4Addr|
            a.ip_address is Some && a.ip_address->0@ == #[trigger] ip.text() ==> usable(a) && ipv4(
                given(a.ip_address)->0,
            ) == Some(ip),
{
    if usable(a) {
        let text = a.ip_address->0@;
        addresses_are_dotted_decimal(text, ipv4(text)->0);
    }
    assert forall|ip: Ipv4Addr|
        a.ip_address is Some && a.ip_address->0@ == #[trigger] ip.text() implies usable(a) && ipv4(
        given(a.ip_address)->0,
    ) == Some(ip) by {
        address_reads_back(ip);
    }
}

proof fn lemma_attachment_to(networks: Seq<(String, Attachment)>, name: Seq<char>, a: int)
    requires
        0 <= a <= networks.len(),
        forall|b: int| 0 <= b < a ==> (#[trigger] networks[b]).0@ != name,
        a < networks.len() ==> networks[a].0@ == name,
    ensures
        a < networks.len() ==> attachment_to(networks, name) == Some(networks[a].1),
        a == networks.len() ==> attachment_to(networks, name) is None,
    decreases networks.len(),
{
    if networks.len() > 0 && a > 0 {
        assert(networks[0].0@ != name);
        let rest = networks.skip(1);
        assert forall|b: int| 0 <= b < a - 1 implies (#[trigger] rest[b]).0@ != name by {
            assert(networks[b + 1].0@ != name);
        }
        lemma_attachment_to(rest, name, a - 1);
    }
}

proof fn lemma_first_usable(networks: Seq<(String, Attachment)>, a: int)
    requires
        0 <= a <= networks.len(),
        forall|b: int| 0 <= b < a ==> !has_address((#[trigger] networks[b]).1),
        a < networks.len() ==> has_address(networks[a].1),
    ensures
        a < networks.len() ==> first_usable(networks) == Some(networks[a].1),
        a == networks.len() ==> first_usable(networks) is None,
    decreases networks.len(),
{
    if networks.len() > 0 {
        lemma_usable(networks[0].1);
        if a > 0 {
            assert(!has_address(networks[0].1));
            let rest = networks.skip(1);
            assert forall|b: int| 0 <= b < a - 1 implies !has_address((#[trigger] rest[b]).1) by {
                assert(!has_address(networks[b + 1].1));
            }
            lemma_first_usable(rest, a - 1);
        }
    }
}

/// The first index from `i` on at which a network is the wanted one.
proof fn lemma_first_network(
    networks: Seq<(String, Attachment)>,
    wanted: spec_fn((String, Attachment)) -> bool,
    i: int,
) -> (a: int)
    requires
        0 <= i <= networks.len(),
        forall|b: int| 0 <= b < i ==> !wanted(#[trigger] networks[b]),
    ensures
        i <= a <= networks.len(),
        forall|b: int| 0 <= b < a ==> !wanted(#[trigger] networks[b]),
        a < networks.len() ==> wanted(networks[a]),
    decreases networks.len() - i,
{
    if i == networks.len() || wanted(networks[i]) {
        i
    } else {
        lemma_first_network(networks, wanted, i + 1)
    }
}

/// The network that a container is reached through, and `-1` if there is none.
proof fn lemma_chosen_attachment(c: Container, network: Option<String>) -> (a: int)
    ensures
        a >= 0 ==> is_reached_through(c, network, a) && chosen_attachment(c, opt_view(network))
            == Some(c.networks->0@[a].1),
        a < 0 ==> chosen_attachment(c, opt_view(network)) is None && forall|b: int|
            !#[trigger] is_reached_through(c, network, b),
{
    if c.networks is None {
        -1
    } else {
        let networks = c.networks->0@;
        let wanted = |n: (String, Attachment)|
            match network {
                Some(name) => n.0@ == name@,
                None => has_address(n.1),
            };
        let a = lemma_first_network(networks, wanted, 0);
        match network {
            Some(name) => {
                assert forall|b: int| 0 <= b < a implies (#[trigger] networks[b]).0@ != name@ by {
                    assert(!wanted(networks[b]));
                }
                lemma_attachment_to(networks, name@, a);
            },
            None => {
                assert forall|b: int| 0 <= b < a implies !has_address(
                    (#[trigger] networks[b]).1,
                ) by {
                    assert(!wanted(networks[b]));
                }
                lemma_first_usable(networks, a);
            },
        }
        if a < networks.len() {
            a
        } else {
            assert forall|b: int| !#[trigger] is_reached_through(c, network, b) by {
                if 0 <= b < networks.len() {
                    assert(!wanted(networks[b]));
                }
            }
            -1
        }
    }
}

/// At most one network is the one a container is reached through.
proof fn lemma_one_network(c: Container, network: Option<String>, a: int, b: int)
    requires
        is_reached_through(c, network, a),
        is_reached_through(c, network, b),
    ensures
        a == b,
{
    if a < b {
        assert(c.networks->0@[a] == c.networks->0@[a]);
    }
    if b < a {
        assert(c.networks->0@[b] == c.networks->0@[b]);
    }
}

proof fn lemma_container_backend(d: Discovery, c: Container, arp: Option<Seq<char>>, index: usize)
    ensures
        container_backend(d, c, arp, index) matches Ok(Some(b)) ==> {
            &&& b.port == d.target_port
            &&& d.target_service_name is Some ==> is_member(c, d.target_service_name->0@)
            &&& exists|a: int|
                #[trigger] is_reached_through(c, d.network, a) && gives(
                    c.networks->0@[a].1,
                    arp,
                    b.ip,
                    b.mac,
                )
        },
        container_backend(d, c, arp, index) matches Err(e) ==> {
            &&& d.target_service_name is Some ==> is_member(c, d.target_service_name->0@)
            &&& exists|a: int|
                #[trigger] is_reached_through(c, d.network, a) && has_bad_mac(
                    c.networks->0@[a].1,
                    e,
                    index,
                )
        },
        forall|a: int, ip: Ipv4Addr, m: Seq<u8>|
            #![trigger is_reached_through(c, d.network, a), gives(c.networks->0@[a].1, arp, ip, m)]
            (d.target_service_name is Some ==> is_member(c, d.target_service_name->0@))
                && is_reached_through(c, d.network, a) && gives(c.networks->0@[a].1, arp, ip, m)
                ==> container_backend(d, c, arp, index) == Ok::<
                Option<BackendView>,
                DiscoverError,
            >(Some(BackendView { ip, port: d.target_port, mac: m })),
        forall|a: int, e: DiscoverError|
            #![trigger is_reached_through(c, d.network, a), has_bad_mac(c.networks->0@[a].1, e, index)]
            (d.target_service_name is Some ==> is_member(c, d.target_service_name->0@))
                && is_reached_through(c, d.network, a) && has_bad_mac(
                c.networks->0@[a].1,
                e,
                index,
            ) ==> container_backend(d, c, arp, index) is Err,
{
    let r = container_backend(d, c, arp, index);
    if d.target_service_name is Some {
        labels_and_names_decide_membership(c, d.target_service_name->0@);
    }
    let a = lemma_chosen_attachment(c, d.network);
    if a >= 0 {
        lemma_usable(c.networks->0@[a].1);
    }
    assert forall|b: int, ip: Ipv4Addr, m: Seq<u8>|
        #![trigger is_reached_through(c, d.network, b), gives(c.networks->0@[b].1, arp, ip, m)]
        (d.target_service_name is Some ==> is_member(c, d.target_service_name->0@))
            && is_reached_through(c, d.network, b) && gives(
            c.networks->0@[b].1,
            arp,
            ip,
            m,
        ) implies r == Ok::<Option<BackendView>, DiscoverError>(
        Some(BackendView { ip, port: d.target_port, mac: m }),
    ) by {
        if a >= 0 {
            lemma_one_network(c, d.network, a, b);
        }
    }
    assert forall|b: int, e: DiscoverError|
        #![trigger is_reached_through(c, d.network, b), has_bad_mac(c.networks->0@[b].1, e, index)]
        (d.target_service_name is Some ==> is_member(c, d.target_service_name->0@))
            && is_reached_through(c, d.network, b) && has_bad_mac(
            c.networks->0@[b].1,
            e,
            index,
        ) implies r is Err by {
        if a >= 0 {
            lemma_one_network(c, d.network, a, b);
        }
    }
}

/// Whether an attachment with an address has a MAC that cannot be read, and `e` says so.
pub open spec fn has_bad_mac(a: Attachment, e: DiscoverError, index: usize) -> bool {
    &&& has_address(a)
    &&& a.mac_address is Some
    &&& a.mac_address->0@.len() > 0
    &&& mac(a.mac_address->0@) matches Err(error) && e == (DiscoverError::BadContainerMac {
        index,
        error,
    })
}

proof fn lemma_container_backends(
    d: Discovery,
    containers: Seq<Container>,
    arp: Option<Seq<char>>,
    n: nat,
)
    requires
        n <= containers.len(),
    ensures
        container_backends(d, containers, arp, n) matches Ok(list) ==> {
            &&& forall|k: int|
                0 <= k < list.len() ==> exists|i: int|
                    0 <= i < n && container_backend(d, #[trigger] containers[i], arp, i as usize)
                        == Ok::<Option<BackendView>, DiscoverError>(Some(#[trigger] list[k]))
            &&& forall|i: int|
                0 <= i < n ==> match container_backend(
                    d,
                    #[trigger] containers[i],
                    arp,
                    i as usize,
                ) {
                    Ok(Some(b)) => list.contains(b),
                    Ok(None) => true,
                    Err(_) => false,
                }
        },
        container_backends(d, containers, arp, n) matches Err(e) ==> exists|i: int|
            0 <= i < n && container_backend(d, #[trigger] containers[i], arp, i as usize) == Err::<
                Option<BackendView>,
                DiscoverError,
            >(e),
    decreases n,
{
    if n > 0 {
        let m = (n - 1) as nat;
        lemma_container_backends(d, containers, arp, m);
        let before = container_backends(d, containers, arp, m);
        let r = container_backend(d, containers[n - 1], arp, (n - 1) as usize);
        if before is Ok && r is Ok {
            let old_list = before->Ok_0;
            let list = container_backends(d, containers, arp, n)->Ok_0;
            assert forall|k: int| 0 <= k < list.len() implies exists|i: int|
                0 <= i < n && container_backend(d, #[trigger] containers[i], arp, i as usize)
                    == Ok::<Option<BackendView>, DiscoverError>(Some(#[trigger] list[k])) by {
                if k < old_list.len() {
                    assert(list[k] == old_list[k]);
                    let i = choose|i: int|
                        0 <= i < m && container_backend(
                            d,
                            #[trigger] containers[i],
                            arp,
                            i as usize,
                        ) == Ok::<Option<BackendView>, DiscoverError>(Some(old_list[k]));
                    assert(container_backend(d, containers[i], arp, i as usize) == Ok::<
                        Option<BackendView>,
                        DiscoverError,
                    >(Some(list[k])));
                } else {
                    assert(container_backend(d, containers[n - 1], arp, (n - 1) as usize) == Ok::<
                        Option<BackendView>,
                        DiscoverError,
                    >(Some(list[k])));
                }
            }
            assert forall|i: int| 0 <= i < n implies match container_backend(
                d,
                #[trigger] containers[i],
                arp,
                i as usize,
            ) {
                Ok(Some(b)) => list.contains(b),
                Ok(None) => true,
                Err(_) => false,
            } by {
                if i < m {
                    if let Ok(Some(b)) = container_backend(d, containers[i], arp, i as usize) {
                        let k = choose|k: int| 0 <= k < old_list.len() && old_list[k] == b;
                        assert(list[k] == b);
                    }
                } else if let Ok(Some(b)) = r {
                    assert(list[old_list.len() as int] == b);
                }
            }
        } else if before is Ok {
            assert(r is Err);
        }
    }
}

/// Law: every backend that strategy `docker` gives is the address of a listed container,
/// with the configured port. With a service name, the container belongs to that service,
/// whether a network is configured too or not; with a network, the address is the one it
/// has there. `i` and `a` are the container and its network.
pub proof fn docker_backends_are_matching_containers(
    d: Discovery,
    containers: Seq<Container>,
    arp: Option<Seq<char>>,
    k: int,
) -> (r: (int, int))
    requires
        docker_backends(d, containers, arp) is Ok,
        0 <= k < docker_backends(d, containers, arp)->Ok_0.len(),
    ensures
        ({
            let b = docker_backends(d, containers, arp)->Ok_0[k];
            let (i, a) = r;
            let c = containers[i];
            &&& 0 <= i < containers.len()
            &&& d.target_service_name is Some ==> is_member(c, d.target_service_name->0@)
            &&& c.networks is Some
            &&& 0 <= a < c.networks->0@.len()
            &&& d.network is Some ==> c.networks->0@[a].0@ == d.network->0@
            &&& is_reached_through(c, d.network, a)
            &&& c.networks->0@[a].1.ip_address is Some
            &&& c.networks->0@[a].1.ip_address->0@ == b.ip.text()
            &&& gives(c.networks->0@[a].1, arp, b.ip, b.mac)
            &&& b.port == d.target_port
        }),
{
    let raw = container_backends(d, containers, arp, containers.len())->Ok_0;
    let sorted = stable_sorted(raw, false);
    let b = docker_backends(d, containers, arp)->Ok_0[k];
    lemma_container_backends(d, containers, arp, containers.len());
    sorting_is_stable(raw, false);
    dedup_keeps_the_backends(sorted, false);
    sorting_keeps_the_backends(raw, false, b);
    assert(deduped(sorted).contains(b));
    assert(sorted.contains(b));
    assert(raw.contains(b));
    let j = choose|j: int| 0 <= j < raw.len() && raw[j] == b;
    let i = choose|i: int|
        0 <= i < containers.len() && container_backend(
            d,
            #[trigger] containers[i],
            arp,
            i as usize,
        ) == Ok::<Option<BackendView>, DiscoverError>(Some(raw[j]));
    let c = containers[i];
    lemma_container_backend(d, c, arp, i as usize);
    let a = choose|a: int|
        #[trigger] is_reached_through(c, d.network, a) && gives(
            c.networks->0@[a].1,
            arp,
            b.ip,
            b.mac,
        );
    (i, a)
}

/// Law: every listed container that belongs to the service, if one is configured, and has
/// an address and a known MAC in the network it is reached through is among the backends
/// that strategy `docker` gives.
pub proof fn matching_containers_are_found(
    d: Discovery,
    containers: Seq<Container>,
    arp: Option<Seq<char>>,
    i: int,
    a: int,
    ip: Ipv4Addr,
    m: Seq<u8>,
)
    requires
        docker_backends(d, containers, arp) is Ok,
        0 <= i < containers.len(),
        d.target_service_name is Some ==> is_member(containers[i], d.target_service_name->0@),
        is_reached_through(containers[i], d.network, a),
        gives(containers[i].networks->0@[a].1, arp, ip, m),
    ensures
        docker_backends(d, containers, arp)->Ok_0.contains(
            (BackendView { ip, port: d.target_port, mac: m }),
        ),
{
    let raw = container_backends(d, containers, arp, containers.len())->Ok_0;
    let sorted = stable_sorted(raw, false);
    let b = BackendView { ip, port: d.target_port, mac: m };
    lemma_container_backend(d, containers[i], arp, i as usize);
    lemma_container_backends(d, containers, arp, containers.len());
    assert(raw.contains(b));
    sorting_is_stable(raw, false);
    sorting_keeps_the_backends(raw, false, b);
    dedup_keeps_the_backends(sorted, false);
    assert(sorted.contains(b));
}

/// Law: strategy `docker` fails without anything to match, and when a matching container
/// with an address has a MAC that cannot be read. It does not fail otherwise.
pub proof fn docker_fails_on_bad_macs_only(
    d: Discovery,
    containers: Seq<Container>,
    arp: Option<Seq<char>>,
)
    ensures
        d.network is None && d.target_service_name is None ==> docker_backends(d, containers, arp)
            == Err::<Seq<BackendView>, DiscoverError>(DiscoverError::NoDockerTarget),
        docker_backends(d, containers, arp) matches Err(e) ==> (d.network is None
            && d.target_service_name is None) || exists|i: int, a: int|
            #![trigger is_reached_through(containers[i], d.network, a)]
            0 <= i < containers.len() && (d.target_service_name is Some ==> is_member(
                containers[i],
                d.target_service_name->0@,
            )) && is_reached_through(containers[i], d.network, a) && has_bad_mac(
                containers[i].networks->0@[a].1,
                e,
                i as usize,
            ),
{
    lemma_container_backends(d, containers, arp, containers.len());
    if !(d.network is None && d.target_service_name is None) {
        if let Err(e) = docker_backends(d, containers, arp) {
            let i = choose|i: int|
                0 <= i < containers.len() && container_backend(
                    d,
                    #[trigger] containers[i],
                    arp,
                    i as usize,
                ) == Err::<Option<BackendView>, DiscoverError>(e);
            lemma_container_backend(d, containers[i], arp, i as usize);
            let a = choose|a: int|
                #[trigger] is_reached_through(containers[i], d.network, a) && has_bad_mac(
                    containers[i].networks->0@[a].1,
                    e,
                    i as usize,
                );
            assert(is_reached_through(containers[i], d.network, a));
        }
    }
}

/// Law: a matching container with an address and a MAC that cannot be read is never passed
/// over: strategy `docker` then fails.
pub proof fn bad_container_macs_are_reported(
    d: Discovery,
    containers: Seq<Container>,
    arp: Option<Seq<char>>,
    i: int,
    a: int,
    e: DiscoverError,
)
    requires
        0 <= i < containers.len(),
        d.target_service_name is Some ==> is_member(containers[i], d.target_service_name->0@),
        is_reached_through(containers[i], d.network, a),
        has_bad_mac(containers[i].networks->0@[a].1, e, i as usize),
    ensures
        docker_backends(d, containers, arp) is Err,
{
    lemma_container_backend(d, containers[i], arp, i as usize);
    lemma_container_backends(d, containers, arp, containers.len());
    assert(container_backend(d, containers[i], arp, i as usize) is Err);
}

/// Whether a static route gives a backend: its address, the port of the route or, without
/// one, the port behind the address, and the MAC of the route, which is looked up if there
/// is none.
pub open spec fn leads_to_backend(
    route: StaticRoute,
    arp: Option<Seq<char>>,
    b: BackendView,
) -> bool {
    &&& endpoint(route.ip@) matches Ok((ip, port)) && b.ip == ip && b.port == (
    if route.port is Some {
        route.port
    } else {
        port
    })
    &&& if route.mac is Some {
        mac(route.mac->0@) == Ok::<Seq<u8>, MacError>(b.mac)
    } else {
        resolved_mac(arp, b.ip) == Some(b.mac)
    }
}

/// Whether a static route gives a backend at all.
pub open spec fn has_backend(route: StaticRoute, arp: Option<Seq<char>>) -> bool {
    exists|b: BackendView| leads_to_backend(route, arp, b)
}

/// Law: strategy `static` gives one backend for every route, in the order of the routes,
/// however many there are.
pub proof fn every_static_route_is_a_backend(d: Discovery, arp: Option<Seq<char>>, i: int)
    requires
        d.static_routes is Some,
        static_backends(d, arp) is Ok,
        0 <= i < d.static_routes->0@.len(),
    ensures
        static_backends(d, arp)->Ok_0.len() == d.static_routes->0@.len(),
        leads_to_backend(d.static_routes->0@[i], arp, static_backends(d, arp)->Ok_0[i]),
{
    lemma_routes(d.static_routes->0@, arp, d.static_routes->0@.len());
}

/// Law: strategy `static` fails without a list, and for the first route that gives no
/// backend; it says which and why.
pub proof fn bad_static_routes_are_reported(d: Discovery, arp: Option<Seq<char>>, n: int)
    requires
        d.static_routes is Some,
        0 <= n < d.static_routes->0@.len() <= usize::MAX,
        forall|i: int|
            0 <= i < n ==> has_backend(#[trigger] d.static_routes->0@[i], arp),
        !has_backend(d.static_routes->0@[n], arp),
    ensures
        ({
            let route = d.static_routes->0@[n];
            static_backends(d, arp) == Err::<Seq<BackendView>, DiscoverError>(
                match endpoint(route.ip@) {
                    Err(error) => DiscoverError::BadRouteIp { index: n as usize, error },
                    Ok(_) => if route.mac is Some {
                        DiscoverError::BadRouteMac {
                            index: n as usize,
                            error: mac(route.mac->0@)->Err_0,
                        }
                    } else {
                        DiscoverError::NoRouteMac { index: n as usize }
                    },
                },
            )
        }),
{
    let routes = d.static_routes->0@;
    lemma_good_routes(routes, arp, n as nat);
    let route = routes[n];
    if let Ok(b) = route_backend(route, arp, n as usize) {
        assert(leads_to_backend(route, arp, b));
    }
    lemma_route_error_stays(routes, arp, (n + 1) as nat, routes.len());
}

proof fn lemma_good_routes(routes: Seq<StaticRoute>, arp: Option<Seq<char>>, n: nat)
    requires
        n <= routes.len(),
        forall|i: int|
            0 <= i < n ==> has_backend(#[trigger] routes[i], arp),
    ensures
        route_backends(routes, arp, n) is Ok,
    decreases n,
{
    if n > 0 {
        lemma_good_routes(routes, arp, (n - 1) as nat);
        let route = routes[n - 1];
        assert(has_backend(route, arp));
        let b = choose|b: BackendView| leads_to_backend(route, arp, b);
        assert(leads_to_backend(route, arp, b));
    }
}

proof fn lemma_routes(routes: Seq<StaticRoute>, arp: Option<Seq<char>>, n: nat)
    requires
        n <= routes.len(),
        route_backends(routes, arp, n) is Ok,
    ensures
        route_backends(routes, arp, n)->Ok_0.len() == n,
        forall|i: int|
            0 <= i < n ==> leads_to_backend(
                #[trigger] routes[i],
                arp,
                route_backends(routes, arp, n)->Ok_0[i],
            ),
    decreases n,
{
    if n > 0 {
        lemma_routes(routes, arp, (n - 1) as nat);
    }
}

/// Law: strategy `static` needs a list of routes.
pub proof fn static_needs_routes(d: Discovery, arp: Option<Seq<char>>)
    ensures
        d.static_routes is None ==> static_backends(d, arp) == Err::<
            Seq<BackendView>,
            DiscoverError,
        >(DiscoverError::NoStaticRoutes),
{
}

proof fn lemma_address_backends(
    addrs: Seq<IpAddr>,
    port: Option<u16>,
    arp: Option<Seq<char>>,
    n: nat,
    b: BackendView,
)
    requires
        n <= addrs.len(),
    ensures
        address_backends(addrs, port, arp, n).contains(b) <==> {
            &&& b.port == port
            &&& resolved_mac(arp, b.ip) == Some(b.mac)
            &&& addrs.take(n as int).contains((IpAddr::V4 { ip: b.ip }))
        },
    decreases n,
{
    let list = address_backends(addrs, port, arp, n);
    let first = addrs.take(n as int);
    if n > 0 {
        let m = (n - 1) as nat;
        let before = address_backends(addrs, port, arp, m);
        let rest = addrs.take(m as int);
        lemma_address_backends(addrs, port, arp, m, b);
        let v = IpAddr::V4 { ip: b.ip };
        assert(first =~= rest.push(addrs[n - 1]));
        if rest.contains(v) {
            let k = choose|k: int| 0 <= k < rest.len() && rest[k] == v;
            assert(first[k] == v);
        }
        if first.contains(v) && addrs[n - 1] != v {
            let k = choose|k: int| 0 <= k < first.len() && first[k] == v;
            assert(rest[k] == v);
        }
        if addrs[n - 1] == v {
            assert(first[n - 1] == v);
        }
        if before.contains(b) {
            let k = choose|k: int| 0 <= k < before.len() && before[k] == b;
            assert(list[k] == b);
        }
        if list.contains(b) && !before.contains(b) {
            let k = choose|k: int| 0 <= k < list.len() && list[k] == b;
            if k < before.len() {
                assert(before[k] == b);
            }
        }
        if addrs[n - 1] == v && b.port == port && resolved_mac(arp, b.ip) == Some(b.mac) {
            assert(list[before.len() as int] == b);
        }
    }
}

/// Law: strategy `dns` gives exactly the resolved IPv4 addresses with a known MAC, each
/// with the configured port, and fails only without a name or without such an address.
pub proof fn dns_backends_are_the_addresses(
    d: Discovery,
    addrs: Seq<IpAddr>,
    arp: Option<Seq<char>>,
    b: BackendView,
)
    ensures
        ({
            let found = {
                &&& b.port == d.target_port
                &&& resolved_mac(arp, b.ip) == Some(b.mac)
                &&& addrs.contains((IpAddr::V4 { ip: b.ip }))
            };
            match dns_backends(d, addrs, arp) {
                Ok(list) => d.target_service_name is Some && (list.contains(b) <==> found),
                Err(e) => {
                    &&& d.target_service_name is None ==> e == DiscoverError::NoDnsTarget
                    &&& d.target_service_name is Some ==> e == DiscoverError::NoDnsBackends
                        && !found
                },
            }
        }),
{
    let raw = address_backends(addrs, d.target_port, arp, addrs.len());
    let sorted = stable_sorted(raw, false);
    lemma_address_backends(addrs, d.target_port, arp, addrs.len(), b);
    assert(addrs.take(addrs.len() as int) =~= addrs);
    sorting_is_stable(raw, false);
    sorting_keeps_the_backends(raw, false, b);
    dedup_keeps_the_backends(sorted, false);
    if raw.contains(b) {
        assert(sorted.contains(b));
        assert(deduped(sorted).contains(b));
    }
}

/// Law: what is asked of the outside. A static list asks for nothing; `docker` asks for
/// the running containers, those of the configured network only if there is one; `dns`
/// asks for the addresses of the configured name, for the configured port or 443.
pub proof fn requests_fit_the_strategy(d: Discovery, r: Result<DiscoveryRequest, DiscoverError>)
    requires
        request_is(d, r),
    ensures
        d.strategy == Strategy::Static ==> r matches Ok(DiscoveryRequest::Static),
        d.strategy == Strategy::Docker && d.network is None && d.target_service_name is None
            ==> r matches Err(DiscoverError::NoDockerTarget),
        d.strategy == Strategy::Docker && !(d.network is None && d.target_service_name is None)
            ==> {
            &&& r matches Ok(DiscoveryRequest::Docker { all, filters })
            &&& !all
            &&& d.network is None ==> filters@.len() == 0
            &&& d.network is Some ==> filters@.len() == 1 && filters@[0].0@ == "network"@
                && filters@[0].1@.len() == 1 && filters@[0].1@[0]@ == d.network->0@
        },
        d.strategy == Strategy::Dns && d.target_service_name is None ==> r matches Err(
            DiscoverError::NoDnsTarget,
        ),
        d.strategy == Strategy::Dns && d.target_service_name is Some ==> {
            &&& r matches Ok(DiscoveryRequest::Dns { host, port })
            &&& host@ == d.target_service_name->0@
            &&& d.target_port is Some ==> port == d.target_port->0
            &&& d.target_port is None ==> port == 443
        },
{
}

/// Law: the configured strategy is the one that is used.
pub proof fn the_configured_strategy_is_used(
    d: Discovery,
    containers: Seq<Container>,
    addrs: Seq<IpAddr>,
    arp: Option<Seq<char>>,
)
    ensures
        d.strategy == Strategy::Static ==> expected_backends(d, containers, addrs, arp)
            == static_backends(d, arp),
        d.strategy == Strategy::Docker ==> expected_backends(d, containers, addrs, arp)
            == docker_backends(d, containers, arp),
        d.strategy == Strategy::Dns ==> expected_backends(d, containers, addrs, arp)
            == dns_backends(d, addrs, arp),
{
}

} // verus!
