use coconet::iface::{
    configure_iface_addr, host_route, index_query, linux_commands, macos_commands, parse_index, windows_commands, Command,
    IfaceError, System,
};
use coconet::ipam::Ipv4Net;
use coconet::tun::{adapter_name, choose_mtu, interface_name, TunHandle};

fn lines(commands: &[Command]) -> Vec<String> {
    commands.iter().map(|c| format!("{} {}", c.program, c.args.join("|"))).collect()
}

#[test]
fn linux_interface() {
    let net = Ipv4Net::parse("10.99.0.42/16").unwrap();
    let expected = vec![
        "ip addr|add|10.99.0.42/16|dev|tun0",
        "ip link|set|dev|tun0|up",
        "ip link|set|dev|tun0|mtu|1400",
        "ip route|replace|10.99.0.0/16|dev|tun0",
    ];
    assert_eq!(lines(&linux_commands("tun0", 1400, "10.99.0.42/16", net)), expected);
    let all = configure_iface_addr(System::Linux, "tun0", 1400, "10.99.0.42/16").unwrap();
    assert_eq!(lines(&all), expected);
}

#[test]
fn macos_interface() {
    let net = Ipv4Net::parse("10.99.0.42/16").unwrap();
    let expected = vec![
        "ifconfig utun7|10.99.0.42|255.255.0.0",
        "ifconfig utun7|mtu|1400",
        "ifconfig utun7|up",
        "route -n|add|-net|10.99.0.0/16|-interface|utun7",
    ];
    assert_eq!(lines(&macos_commands("utun7", 1400, net)), expected);
    let all = configure_iface_addr(System::Macos, "utun7", 1400, "10.99.0.42/16").unwrap();
    assert_eq!(lines(&all), expected);
}

#[test]
fn windows_interface() {
    let net = Ipv4Net::parse("10.99.0.42/16").unwrap();
    let expected = vec![
        "powershell -NoProfile|-Command|Try { New-NetIPAddress -InterfaceIndex 12 -IPAddress 10.99.0.42 -PrefixLength 16 -AddressFamily IPv4 -ErrorAction Stop } Catch { $_ }",
        "powershell -NoProfile|-Command|Try { New-NetRoute -InterfaceIndex 12 -DestinationPrefix '10.99.0.0/16' -NextHop 0.0.0.0 -RouteMetric 5 -ErrorAction SilentlyContinue } Catch { $_ }",
        "powershell -NoProfile|-Command|Try { Set-NetIPInterface -InterfaceIndex 12 -AddressFamily IPv4 -NlMtuBytes 1300 -ErrorAction Stop } Catch { $_ }",
        "powershell -NoProfile|-Command|Try { Set-NetIPInterface -InterfaceIndex 12 -AddressFamily IPv6 -NlMtuBytes 1300 -ErrorAction Stop } Catch { $_ }",
        "netsh interface|ipv4|set|subinterface|wintun|mtu=1300|store=active",
        "powershell -NoProfile|-Command|Try { Set-NetIPInterface -InterfaceIndex 12 -AutomaticMetric Disabled -InterfaceMetric 5 -ErrorAction Stop } Catch { $_ }",
    ];
    assert_eq!(lines(&windows_commands("wintun", 1300, net, 12)), expected);
    let all = configure_iface_addr(System::Windows(12), "wintun", 1300, "10.99.0.42/16").unwrap();
    assert_eq!(lines(&all), expected);
}

#[test]
fn an_address_that_does_not_parse() {
    for system in [System::Linux, System::Macos, System::Windows(1)] {
        let e = configure_iface_addr(system, "tun0", 1400, "10.99.0.42/160").unwrap_err();
        assert!(matches!(e, IfaceError::BadAddress(_)));
        assert_eq!(e.message(), "invalid prefix");
    }
}

#[test]
fn the_index_of_an_interface() {
    assert_eq!(
        lines(&[index_query("wintun")]),
        vec!["powershell -NoProfile|-Command|(Get-NetIPInterface -InterfaceAlias 'wintun' -AddressFamily IPv4).InterfaceIndex"]
    );
    assert_eq!(parse_index("wintun", true, "  12\r\n").unwrap(), 12);
    assert_eq!(parse_index("wintun", true, "4294967295").unwrap(), u32::MAX);
    let e = parse_index("wintun", false, "12").unwrap_err();
    assert!(matches!(e, IfaceError::QueryFailed(_)));
    assert_eq!(e.message(), "Get-NetIPInterface failed for alias=wintun");
    let e = parse_index("wintun", true, " 4294967296\n").unwrap_err();
    assert!(matches!(e, IfaceError::BadIndex(_)));
    assert_eq!(e.message(), "invalid InterfaceIndex: 4294967296");
    assert_eq!(parse_index("wintun", true, "").unwrap_err().message(), "invalid InterfaceIndex: ");
}

#[test]
fn the_route_of_a_host() {
    assert_eq!(
        lines(&[host_route(7, "10.99.1.2")]),
        vec!["powershell -NoProfile|-Command|Try { New-NetRoute -InterfaceIndex 7 -DestinationPrefix '10.99.1.2/32' -NextHop 0.0.0.0 -RouteMetric 5 -ErrorAction SilentlyContinue } Catch { $_ }"]
    );
}

#[test]
fn mtu_and_names() {
    assert_eq!(choose_mtu(None, true), 1300);
    assert_eq!(choose_mtu(None, false), 1400);
    assert_eq!(choose_mtu(Some(900), true), 900);
    assert_eq!(choose_mtu(Some(0), false), 0);
    let s = |t: &str| Some(String::from(t));
    assert_eq!(interface_name(s("tun3"), s("coco")), "tun3");
    assert_eq!(interface_name(None, s("coco")), "coco");
    assert_eq!(interface_name(None, None), "coconet0");
    assert_eq!(adapter_name(s("coco")), "coco");
    assert_eq!(adapter_name(None), "wintun");
    let handle = TunHandle::new(String::from("tun3"), 1280);
    assert_eq!((handle.ifname(), handle.mtu()), ("tun3", 1280));
}
