use l4::host::{detect_default_iface, is_config_change, mode_name, watch_target, Attach, AttachMode, ChangeKind};

const ROUTES: &str = "Iface\tDestination\tGateway \tFlags\tRefCnt\tUse\tMetric\tMask\t\tMTU\tWindow\tIRTT\n\
docker0\t000011AC\t00000000\t0001\t0\t0\t0\t0000FFFF\t0\t0\t0\n\
eth1\t00000000\t0101A8C0\t0003\t0\t0\t100\t00000000\t0\t0\t0\n\
eth0\t00000000\t0100A8C0\t0003\t0\t0\t200\t00000000\t0\t0\t0\n";

fn name(s: &str) -> Option<Vec<u8>> {
    Some(s.as_bytes().to_vec())
}

fn modes(mode: &str) -> Vec<AttachMode> {
    let mut attach = Attach::new(mode);
    let mut tried = Vec::new();
    while let Some(m) = attach.next() {
        tried.push(m);
        attach.failed();
    }
    tried
}

#[test]
fn the_first_default_route_names_the_interface() {
    assert_eq!(detect_default_iface(ROUTES), Some("eth1".to_string()));
}

#[test]
fn half_the_address_space_is_no_default_route() {
    let routes = "Iface Destination Gateway Flags RefCnt Use Metric Mask\n\
tun0 00000000 0100080A 0003 0 0 0 00000080\n\
eth0 00000000 0100A8C0 0003 0 0 0 00000000\n";
    assert_eq!(detect_default_iface(routes), Some("eth0".to_string()));
}

#[test]
fn a_line_without_a_mask_goes_by_its_destination() {
    assert_eq!(detect_default_iface("heading\nlo 00000000 0 3 0 0 0\n"), Some("lo".to_string()));
    assert_eq!(detect_default_iface("heading\neth0 0000000A\neth1 00000000\n"), Some("eth1".to_string()));
}

#[test]
fn without_a_default_route_there_is_no_interface() {
    assert_eq!(detect_default_iface(""), None);
    assert_eq!(detect_default_iface("heading\neth0 0000000A 0 3 0 0 0 00000000\neth0\n\n"), None);
    // The first line is a heading, whatever it says.
    assert_eq!(detect_default_iface("eth0 00000000 0 3 0 0 0 00000000\n"), None);
    assert_eq!(detect_default_iface("heading\n\n lo 00000000 0 3 0 0 0 00000000"), Some("lo".to_string()));
    assert_eq!(detect_default_iface("heading\n00000000\n"), None);
}

#[test]
fn automatic_mode_falls_back_to_generic() {
    assert_eq!(modes("auto"), vec![AttachMode::Native, AttachMode::Skb]);
    assert_eq!(modes("anything"), vec![AttachMode::Native, AttachMode::Skb]);
}

#[test]
fn forced_modes_are_tried_alone() {
    assert_eq!(modes("skb"), vec![AttachMode::Skb]);
    assert_eq!(modes("drv"), vec![AttachMode::Native]);
    assert_eq!(modes("native"), vec![AttachMode::Native]);
    assert_eq!(modes("hw"), vec![AttachMode::Hardware]);
}

#[test]
fn modes_have_names() {
    assert_eq!(mode_name(AttachMode::Skb), "skb");
    assert_eq!(mode_name(AttachMode::Native), "native");
    assert_eq!(mode_name(AttachMode::Hardware), "hardware");
}

#[test]
fn changes_of_the_config_file_call_for_a_reload() {
    let config = name("config.yaml");
    let touched = [None, name("other"), name("config.yaml")];
    for kind in [ChangeKind::Modify, ChangeKind::Create, ChangeKind::Remove] {
        assert!(is_config_change(kind, &config, &touched));
        assert!(!is_config_change(kind, &config, &touched[..2]));
        assert!(!is_config_change(kind, &config, &[]));
        assert!(!is_config_change(kind, &config, &[name("config.yam"), name("config.yamL")]));
        assert!(is_config_change(kind, &None, &[]));
    }
    assert!(!is_config_change(ChangeKind::Other, &config, &touched));
    assert!(!is_config_change(ChangeKind::Other, &None, &touched));
}

#[test]
fn the_parent_directory_is_watched() {
    assert_eq!(watch_target(name("/etc/l4")), b"/etc/l4".to_vec());
    assert_eq!(watch_target(name("")), b".".to_vec());
    assert_eq!(watch_target(None), b".".to_vec());
}
