use kipa::error::{ApiErrorType, Error, InternalError};
use kipa::local_address::{LocalAddressParams, NetworkInterface};

fn iface(name: &str, ips: Vec<Vec<u8>>) -> NetworkInterface {
    NetworkInterface { name: name.to_string(), ips }
}

fn ipv6() -> Vec<u8> {
    vec![0xfe, 0x80, 0, 0, 0, 0, 0, 0, 0, 0, 0, 0, 0, 0, 0, 1]
}

#[test]
fn skips_loopback_and_empty_interfaces() {
    let params = LocalAddressParams::new(10842, None, false);
    let interfaces = vec![
        iface("lo", vec![vec![127, 0, 0, 1]]),
        iface("eth0", vec![]),
        iface("eth1", vec![vec![192, 168, 0, 2], vec![10, 0, 0, 1]]),
    ];
    let address = params.create_address(interfaces).unwrap();
    assert_eq!(address.ip_data, vec![192, 168, 0, 2]);
    assert_eq!(address.port, 10842);
}

#[test]
fn named_interface_is_chosen() {
    let params = LocalAddressParams::new(1, Some("lo".to_string()), false);
    let interfaces = vec![
        iface("eth1", vec![vec![192, 168, 0, 2]]),
        iface("lo", vec![vec![127, 0, 0, 1]]),
    ];
    assert_eq!(params.create_address(interfaces).unwrap().ip_data, vec![127, 0, 0, 1]);
}

#[test]
fn forced_ipv6_takes_first_ipv6() {
    let params = LocalAddressParams::new(1, None, true);
    let interfaces = vec![iface("eth0", vec![vec![192, 168, 0, 2], ipv6()])];
    assert_eq!(params.create_address(interfaces).unwrap().ip_data, ipv6());
}

#[test]
fn forced_ipv6_without_ipv6_fails() {
    let params = LocalAddressParams::new(1, None, true);
    let interfaces = vec![iface("eth0", vec![vec![192, 168, 0, 2]]), iface("eth1", vec![ipv6()])];
    match params.create_address(interfaces) {
        Err(InternalError::PrivateError(Error::IpAddressError(m))) => {
            assert_eq!(m, "Could not find any IP address on interface eth0, found: []")
        }
        _ => panic!("expected an IP address error"),
    }
}

#[test]
fn no_matching_interface_fails() {
    let params = LocalAddressParams::new(1, Some("wlan0".to_string()), false);
    let interfaces = vec![iface("eth0", vec![vec![192, 168, 0, 2]])];
    match params.create_address(interfaces) {
        Err(InternalError::PublicError(e, None)) => {
            assert_eq!(e.message, "Could not find matching interface name");
            assert_eq!(e.error_type, ApiErrorType::External);
        }
        _ => panic!("expected a public error"),
    }
}
