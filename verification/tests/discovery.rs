use l4::backend::{dedup_backends, sort_backends, Backend};
use l4::config::{Config, Discovery, StaticRoute, Strategy};
use l4::discovery::{
    discover, discover_dns, discover_docker, discover_static, discovery_request, Attachment, Container, DiscoverError,
    DiscoveryRequest, IpAddr, SERVICE_LABEL,
};
use l4::health::{choose_probe_port, filter_healthy};
use l4::maglev::build_table;
use l4::net::{EndpointError, Ipv4Addr, MacError};

const ARP: &str = "IP address HW type Flags HW address Mask Device\n\
10.0.0.1 0x1 0x2 02:00:00:00:00:01 * eth0\n\
10.0.0.2 0x1 0x2 02:00:00:00:00:02 * eth0\n\
10.0.0.3 0x1 0x2 02:00:00:00:00:03 * eth0\n";

fn cfg(strategy: Strategy) -> Config {
    Config {
        gateway: None,
        discovery: Discovery {
            strategy,
            target_service_name: None,
            network: None,
            target_port: None,
            sync_interval_ms: None,
            static_routes: None,
            drop_unmatched: false,
        },
        protection: None,
        health_check: None,
        observability: None,
    }
}

fn route(ip: &str, port: Option<u16>, mac: Option<&str>) -> StaticRoute {
    StaticRoute { ip: ip.to_string(), port, mac: mac.map(str::to_string) }
}

fn static_cfg(routes: Vec<StaticRoute>) -> Config {
    let mut c = cfg(Strategy::Static);
    c.discovery.static_routes = Some(routes);
    c
}

fn backend(last: u8, port: Option<u16>) -> Backend {
    Backend { ip: Ipv4Addr::new(10, 0, 0, last), port, mac: [2, 0, 0, 0, 0, last] }
}

fn attachment(ip: &str, mac: &str) -> Attachment {
    Attachment { ip_address: Some(ip.to_string()), mac_address: Some(mac.to_string()) }
}

fn container(service: Option<&str>, names: &[&str], networks: Vec<(&str, Attachment)>) -> Container {
    Container {
        labels: service.map(|s| {
            vec![("other".to_string(), "x".to_string()), (SERVICE_LABEL.to_string(), s.to_string())]
        }),
        names: Some(names.iter().map(|n| n.to_string()).collect()),
        networks: Some(networks.into_iter().map(|(n, a)| (n.to_string(), a)).collect()),
    }
}

#[test]
fn keys_are_address_and_port() {
    assert_eq!(backend(7, Some(3000)).key(), "10.0.0.7:3000");
    assert_eq!(backend(7, None).key(), "10.0.0.7:0");
    let other_mac = Backend { mac: [9; 6], ..backend(7, None) };
    assert_eq!(other_mac.key(), backend(7, None).key());
}

#[test]
fn static_routes_are_taken_in_order() {
    let c = static_cfg(vec![
        route("10.0.0.9", Some(3000), Some("02:00:00:00:00:09")),
        route("10.0.0.1:8080", None, None),
        route("10.0.0.2:8080", Some(81), None),
    ]);
    let expected = vec![backend(9, Some(3000)), backend(1, Some(8080)), backend(2, Some(81))];
    assert_eq!(discover_static(&c, Some(ARP)), Ok(expected.clone()));
    assert_eq!(discover(&c, &[], &[], Some(ARP)), Ok(expected));
}

#[test]
fn an_empty_route_list_is_no_error() {
    assert_eq!(discover_static(&static_cfg(vec![]), None), Ok(vec![]));
}

#[test]
fn static_errors_name_the_route() {
    assert_eq!(discover_static(&cfg(Strategy::Static), None), Err(DiscoverError::NoStaticRoutes));
    let good = route("10.0.0.1", None, Some("02:00:00:00:00:01"));
    let bad_ip = static_cfg(vec![good.clone(), route("nowhere", None, None)]);
    assert_eq!(
        discover_static(&bad_ip, None),
        Err(DiscoverError::BadRouteIp { index: 1, error: EndpointError::BadIpv4 })
    );
    let bad_port = static_cfg(vec![route("10.0.0.1:x", Some(1), None)]);
    assert_eq!(
        discover_static(&bad_port, None),
        Err(DiscoverError::BadRouteIp { index: 0, error: EndpointError::BadPort })
    );
    let bad_mac = static_cfg(vec![good.clone(), route("10.0.0.1", None, Some("1:2"))]);
    assert_eq!(
        discover_static(&bad_mac, Some(ARP)),
        Err(DiscoverError::BadRouteMac { index: 1, error: MacError::TooFewOctets })
    );
    let no_mac = static_cfg(vec![good, route("10.0.0.77", None, None)]);
    assert_eq!(discover_static(&no_mac, Some(ARP)), Err(DiscoverError::NoRouteMac { index: 1 }));
    assert_eq!(discover_static(&no_mac, None), Err(DiscoverError::NoRouteMac { index: 1 }));
}

#[test]
fn containers_match_by_network() {
    let mut c = cfg(Strategy::Docker);
    c.discovery.network = Some("backends".to_string());
    c.discovery.target_port = Some(80);
    let list = vec![
        container(None, &["/b"], vec![("x", attachment("10.9.9.9", "")), ("backends", attachment("10.0.0.2", ""))]),
        container(None, &["/a"], vec![("backends", attachment("10.0.0.1", "02:00:00:00:00:01"))]),
        container(None, &["/c"], vec![("x", attachment("10.0.0.3", ""))]),
    ];
    let expected = vec![backend(1, Some(80)), backend(2, Some(80))];
    assert_eq!(discover_docker(&c, &list, Some(ARP)), Ok(expected.clone()));
    assert_eq!(discover(&c, &list, &[], Some(ARP)), Ok(expected));
}

#[test]
fn containers_match_by_service() {
    let mut c = cfg(Strategy::Docker);
    c.discovery.target_service_name = Some("web".to_string());
    let at = |ip: &str| vec![("any", attachment(ip, ""))];
    let list = vec![
        container(Some("web"), &["/x"], at("10.0.0.1")),
        container(Some("webby"), &["/y"], at("10.0.0.2")),
        container(Some("db"), &["/my-web-1"], at("10.0.0.3")),
    ];
    assert_eq!(discover_docker(&c, &list, Some(ARP)), Ok(vec![backend(1, None), backend(3, None)]));
    let unnamed = Container { labels: None, names: None, networks: None };
    assert_eq!(discover_docker(&c, &[unnamed], Some(ARP)), Ok(vec![]));
}

#[test]
fn leading_slashes_are_no_part_of_a_name() {
    let mut c = cfg(Strategy::Docker);
    c.discovery.target_service_name = Some("/web".to_string());
    let list = vec![container(None, &["//web"], vec![("any", attachment("10.0.0.1", ""))])];
    assert_eq!(discover_docker(&c, &list, Some(ARP)), Ok(vec![]));
    c.discovery.target_service_name = Some(String::new());
    assert_eq!(discover_docker(&c, &list, Some(ARP)), Ok(vec![backend(1, None)]));
}

#[test]
fn without_a_network_the_first_usable_attachment_counts() {
    let mut c = cfg(Strategy::Docker);
    c.discovery.target_service_name = Some("web".to_string());
    let none = Attachment { ip_address: None, mac_address: None };
    let list = vec![
        container(Some("web"), &[], vec![("n1", attachment("10.0.0.2", "")), ("n2", attachment("10.0.0.1", ""))]),
        container(
            Some("web"),
            &[],
            vec![
                ("n0", none.clone()),
                ("n1", attachment("", "02:00:00:00:00:09")),
                ("n2", attachment("fe80::1", "")),
                ("n3", attachment("10.0.0.7", "02:00:00:00:00:07")),
                ("n4", attachment("10.0.0.1", "")),
            ],
        ),
        container(Some("web"), &[], vec![("n0", none)]),
        container(Some("web"), &[], vec![]),
    ];
    assert_eq!(discover_docker(&c, &list, Some(ARP)), Ok(vec![backend(2, None), backend(7, None)]));
}

#[test]
fn unusable_containers_are_passed_over() {
    let mut c = cfg(Strategy::Docker);
    c.discovery.network = Some("n".to_string());
    let on = |a: Attachment| container(None, &[], vec![("n", a)]);
    let list = vec![
        on(attachment("", "02:00:00:00:00:01")),
        on(attachment("not an address", "02:00:00:00:00:01")),
        on(Attachment { ip_address: None, mac_address: None }),
        on(attachment("10.0.0.88", "")),
        on(Attachment { ip_address: Some("10.0.0.3".to_string()), mac_address: None }),
        Container { labels: None, names: None, networks: None },
    ];
    assert_eq!(discover_docker(&c, &list, Some(ARP)), Ok(vec![backend(3, None)]));
}

#[test]
fn a_bad_container_mac_is_an_error() {
    let mut c = cfg(Strategy::Docker);
    c.discovery.network = Some("n".to_string());
    let list = vec![
        container(None, &[], vec![("n", attachment("10.0.0.1", ""))]),
        container(None, &[], vec![("n", attachment("10.0.0.2", "zz"))]),
    ];
    assert_eq!(
        discover_docker(&c, &list, Some(ARP)),
        Err(DiscoverError::BadContainerMac { index: 1, error: MacError::BadOctet { slot: 0 } })
    );
}

#[test]
fn docker_needs_something_to_match() {
    let c = cfg(Strategy::Docker);
    assert_eq!(discover_docker(&c, &[], Some(ARP)), Err(DiscoverError::NoDockerTarget));
    assert!(matches!(discovery_request(&c), Err(DiscoverError::NoDockerTarget)));
}

#[test]
fn resolved_addresses_become_backends() {
    let mut c = cfg(Strategy::Dns);
    c.discovery.target_service_name = Some("backend.internal".to_string());
    c.discovery.target_port = Some(8443);
    let v4 = |last: u8| IpAddr::V4 { ip: Ipv4Addr::new(10, 0, 0, last) };
    let addrs = [v4(3), IpAddr::V6, v4(1), v4(3), v4(200)];
    let expected = vec![backend(1, Some(8443)), backend(3, Some(8443))];
    assert_eq!(discover_dns(&c, &addrs, Some(ARP)), Ok(expected.clone()));
    assert_eq!(discover(&c, &[], &addrs, Some(ARP)), Ok(expected));
    c.discovery.target_port = None;
    assert_eq!(discover_dns(&c, &[v4(2)], Some(ARP)), Ok(vec![backend(2, None)]));
}

#[test]
fn dns_needs_a_name_and_a_result() {
    let mut c = cfg(Strategy::Dns);
    assert_eq!(discover_dns(&c, &[], Some(ARP)), Err(DiscoverError::NoDnsTarget));
    assert!(matches!(discovery_request(&c), Err(DiscoverError::NoDnsTarget)));
    c.discovery.target_service_name = Some("backend.internal".to_string());
    assert_eq!(discover_dns(&c, &[IpAddr::V6], Some(ARP)), Err(DiscoverError::NoDnsBackends));
}

#[test]
fn requests_follow_the_strategy() {
    assert!(matches!(discovery_request(&cfg(Strategy::Static)), Ok(DiscoveryRequest::Static)));
    let mut c = cfg(Strategy::Docker);
    c.discovery.target_service_name = Some("web".to_string());
    match discovery_request(&c) {
        Ok(DiscoveryRequest::Docker { all, filters }) => assert!(!all && filters.is_empty()),
        other => panic!("{other:?}"),
    }
    c.discovery.network = Some("n".to_string());
    match discovery_request(&c) {
        Ok(DiscoveryRequest::Docker { all, filters }) => {
            assert!(!all);
            assert_eq!(filters, vec![("network".to_string(), vec!["n".to_string()])]);
        }
        other => panic!("{other:?}"),
    }
    c.discovery.strategy = Strategy::Dns;
    match discovery_request(&c) {
        Ok(DiscoveryRequest::Dns { host, port }) => assert_eq!((host.as_str(), port), ("web", 443)),
        other => panic!("{other:?}"),
    }
    c.discovery.target_port = Some(53);
    match discovery_request(&c) {
        Ok(DiscoveryRequest::Dns { port, .. }) => assert_eq!(port, 53),
        other => panic!("{other:?}"),
    }
}

#[test]
fn sorting_is_stable_by_address() {
    let with_mac = |last: u8, m: u8| Backend { mac: [m; 6], ..backend(last, None) };
    let list = [with_mac(2, 1), with_mac(1, 9), with_mac(2, 0), with_mac(1, 3)];
    let sorted = sort_backends(&list, false);
    assert_eq!(sorted, vec![with_mac(1, 9), with_mac(1, 3), with_mac(2, 1), with_mac(2, 0)]);
}

#[test]
fn keeping_the_port_sorts_before_any_port() {
    let list = [backend(1, Some(0)), backend(2, None), backend(1, Some(65535)), backend(1, None)];
    let sorted = sort_backends(&list, true);
    assert_eq!(sorted, vec![backend(1, None), backend(1, Some(0)), backend(1, Some(65535)), backend(2, None)]);
    let mut standard = list.to_vec();
    standard.sort_by_key(|b| (b.ip.to_bits(), b.port));
    assert_eq!(sorted, standard);
}

#[test]
fn equal_neighbours_are_reduced_to_one() {
    let (a, b) = (backend(1, None), backend(2, None));
    let list = [a, a, b, b, b, a];
    assert_eq!(dedup_backends(&list), vec![a, b, a]);
    assert_eq!(dedup_backends(&[]), vec![]);
    assert!(a.same(&a));
    assert!(!a.same(&backend(1, Some(0))));
    assert!(!a.same(&Backend { mac: [0; 6], ..a }));
}

#[test]
fn probe_port_override_wins() {
    assert_eq!(choose_probe_port(Some(1), Some(2), 3), 2);
    assert_eq!(choose_probe_port(Some(1), None, 3), 1);
    assert_eq!(choose_probe_port(None, Some(2), 3), 2);
    assert_eq!(choose_probe_port(None, None, 3), 3);
}

#[test]
fn only_backends_that_answered_remain() {
    let list = [backend(3, None), backend(9, None), backend(1, Some(5)), backend(1, None), backend(2, None)];
    let healthy = vec![backend(1, None), backend(1, Some(5)), backend(3, None)];
    assert_eq!(filter_healthy(&list, &[true, false, true, true, false]), healthy);
    // One without an answer did not answer, and further answers belong to nobody.
    assert_eq!(filter_healthy(&list, &[true, false, true, true]), healthy);
    assert_eq!(filter_healthy(&list[..1], &[false, true, true]), vec![]);
}

#[test]
fn the_order_of_the_backends_does_not_change_the_table() {
    let a = [backend(3, None), backend(1, Some(5)), backend(2, None)];
    let b = [backend(2, None), backend(1, Some(5)), backend(3, None)];
    let table = |list: &[Backend]| {
        let keys: Vec<String> = filter_healthy(list, &[true; 3]).iter().map(|x| x.key()).collect();
        build_table(&keys)
    };
    assert_eq!(table(&a), table(&b));
}
