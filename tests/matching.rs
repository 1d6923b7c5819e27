use roameo::cidr::{HostAddress, IPv4NetworkAddress};
use roameo::error::MatchError;
use roameo::inet::InterfaceAddress;
use roameo::roameo::{Lookup, Roameo};
use roameo::wireless::WirelessProbe;

fn cidr(s: &str) -> IPv4NetworkAddress {
    IPv4NetworkAddress::from_cidr(s).unwrap()
}

fn config(
    interface: Option<&str>,
    address: Option<&str>,
    subnet: Option<&str>,
    essid: Option<&str>,
) -> Roameo {
    Roameo::new(
        interface.map(|s| s.to_string()),
        address.map(|s| s.to_string()),
        subnet.map(|s| s.to_string()),
        essid.map(|s| s.to_string()),
    )
    .unwrap()
}

fn record(name: &str, addr: u32, mask: u32) -> InterfaceAddress {
    InterfaceAddress {
        interface: name.to_string(),
        address: Some(HostAddress::Inet(addr)),
        netmask: Some(HostAddress::Inet(mask)),
    }
}

fn sample_records() -> Vec<InterfaceAddress> {
    vec![
        record("eth0", 0xC000_0205, 0xFFFF_FF00),
        InterfaceAddress {
            interface: "eth0".to_string(),
            address: Some(HostAddress::Other),
            netmask: Some(HostAddress::Other),
        },
        record("wlan0", 0xC633_6409, 0xFFFF_FF00),
    ]
}

fn essid_buffer(name: &str) -> Vec<u8> {
    let mut b = name.as_bytes().to_vec();
    b.resize(32, 0);
    b
}

#[test]
fn cidr_fields_are_laid_out_by_octet() {
    let c = cidr("203.0.113.77/24");
    assert_eq!(c.addr(), 0xCB00_714D);
    assert_eq!(c.mask(), 0xFFFF_FF00);
    assert_eq!(c.network(), 0xCB00_7100);
}

#[test]
fn cidr_widths_at_the_edges() {
    assert_eq!(cidr("10.1.2.3/0").mask(), 0);
    assert_eq!(cidr("10.1.2.3/0").network(), 0);
    assert_eq!(cidr("10.1.2.3/32").mask(), 0xFFFF_FFFF);
    assert_eq!(cidr("10.1.2.3/32").network(), 0x0A01_0203);
    assert_eq!(cidr("255.255.255.255/1").mask(), 0x8000_0000);
    assert_eq!(cidr("010.0.0.0/8").addr(), 0x0A00_0000);
}

#[test]
fn cidr_same_network_compares_equal() {
    assert!(cidr("203.0.113.0/24") == cidr("203.0.113.77/24"));
    assert!(cidr("203.0.113.0/24") != cidr("203.0.114.0/24"));
}

#[test]
fn cidr_equality_ignores_mask_width() {
    assert!(cidr("10.0.0.0/24") == cidr("10.0.0.0/16"));
}

#[test]
fn cidr_malformed_is_refused() {
    for s in [
        "10.0.0.0",
        "",
        "10.0.0/8",
        "10.0.0.0.0/8",
        "10.0.x.0/8",
        "256.0.0.0/8",
        "10.0.0.0/33",
        "10.0.0.0/",
        "10.0.0.0/8 ",
        "+10.0.0.0/8",
        "10..0.0/8",
    ] {
        assert_eq!(
            IPv4NetworkAddress::from_cidr(s).err(),
            Some(MatchError::InvalidCidr),
            "{}",
            s
        );
    }
}

#[test]
fn sockaddr_values_become_address_and_mask() {
    let v = IPv4NetworkAddress::from_sockaddr(
        &HostAddress::Inet(0xC000_0205),
        &HostAddress::Inet(0xFFFF_FF00),
    )
    .unwrap();
    assert_eq!(v.addr(), 0xC000_0205);
    assert_eq!(v.network(), 0xC000_0200);
    let w = IPv4NetworkAddress::from_sockaddr(&HostAddress::Other, &HostAddress::Other).unwrap();
    assert_eq!(w.addr(), 0);
    assert_eq!(w.mask(), 0);
}

#[test]
fn new_fills_defaults() {
    let r = config(None, None, None, None);
    assert_eq!(r.interface(), "any");
    assert_eq!(r.address(), "");
    assert_eq!(r.subnet(), "");
    assert_eq!(r.essid(), "");
}

#[test]
fn address_matches_any_interface() {
    let r = config(None, Some("192.0.2.5"), None, None);
    assert_eq!(r.find_match(), Ok(Lookup::Addresses));
    assert_eq!(r.get_inet_addrs(&sample_records()), Ok(()));
}

#[test]
fn address_with_port_matches() {
    let r = config(None, Some("192.0.2.5:0"), None, None);
    assert_eq!(r.get_inet_addrs(&sample_records()), Ok(()));
}

#[test]
fn address_on_other_interface_is_not_found() {
    let r = config(Some("wlan0"), Some("192.0.2.5"), None, None);
    assert_eq!(r.get_inet_addrs(&sample_records()), Err(MatchError::NotFound));
}

#[test]
fn unreadable_address_counts_as_zero() {
    let r = config(None, Some("not-an-address"), None, None);
    assert_eq!(r.get_inet_addrs(&sample_records()), Err(MatchError::NotFound));
    let zero = vec![record("lo", 0, 0xFF00_0000)];
    assert_eq!(r.get_inet_addrs(&zero), Ok(()));
}

#[test]
fn subnet_matches_any_interface() {
    let r = config(None, None, Some("198.51.100.0/24"), None);
    assert_eq!(r.find_match(), Ok(Lookup::Addresses));
    assert_eq!(r.get_inet_addrs(&sample_records()), Ok(()));
}

#[test]
fn subnet_absent_is_not_found() {
    let r = config(None, None, Some("203.0.113.0/24"), None);
    assert_eq!(r.get_inet_addrs(&sample_records()), Err(MatchError::NotFound));
}

#[test]
fn subnet_malformed_is_refused() {
    let r = config(None, None, Some("198.51.100.0"), None);
    assert_eq!(r.get_inet_addrs(&sample_records()), Err(MatchError::InvalidCidr));
}

#[test]
fn match_against_given_target() {
    let r = config(Some("eth0"), Some("x"), None, None);
    assert_eq!(r.match_inet_addrs(&sample_records(), 0xC000_0205), Ok(()));
    assert_eq!(
        r.match_inet_addrs(&sample_records(), 0xC633_6409),
        Err(MatchError::NotFound)
    );
}

#[test]
fn essid_matches_on_wireless_interface() {
    let r = config(None, None, None, Some("CorporateWiFi"));
    assert_eq!(r.find_match(), Ok(Lookup::Essid));
    let probes = vec![
        WirelessProbe { interface: "eth0".to_string(), reply: None },
        WirelessProbe {
            interface: "wlan0".to_string(),
            reply: Some(essid_buffer("CorporateWiFi")),
        },
    ];
    assert_eq!(r.match_essid("CorporateWiFi", &Some(probes)), Ok(()));
}

#[test]
fn other_essid_is_not_found() {
    let r = config(None, None, None, Some("GuestWiFi"));
    let probes = vec![WirelessProbe {
        interface: "wlan0".to_string(),
        reply: Some(essid_buffer("CorporateWiFi")),
    }];
    assert_eq!(r.match_essid("GuestWiFi", &Some(probes)), Err(MatchError::NotFound));
}

#[test]
fn essid_filtered_interface_is_not_found() {
    let r = config(Some("eth0"), None, None, Some("CorporateWiFi"));
    let probes = vec![WirelessProbe {
        interface: "wlan0".to_string(),
        reply: Some(essid_buffer("CorporateWiFi")),
    }];
    assert_eq!(r.match_essid("CorporateWiFi", &Some(probes)), Err(MatchError::NotFound));
}

#[test]
fn essid_unsupported_platform() {
    let r = config(None, None, None, Some("CorporateWiFi"));
    assert_eq!(r.match_essid("CorporateWiFi", &None), Err(MatchError::Unsupported));
}

#[test]
fn has_essid_trims_trailing_zero_bytes() {
    let r = config(None, None, None, None);
    assert_eq!(r.has_essid(&Some(essid_buffer("Cafe")), "Cafe"), Ok(()));
    assert_eq!(r.has_essid(&Some(b"Cafe".to_vec()), "Cafe"), Ok(()));
    assert_eq!(r.has_essid(&Some(essid_buffer("Cafe")), "Caf"), Err(MatchError::NotFound));
    assert_eq!(r.has_essid(&None, "Cafe"), Err(MatchError::NotFound));
    assert_eq!(r.has_essid(&Some(vec![0u8; 32]), ""), Ok(()));
}

#[test]
fn has_essid_keeps_leading_zero_bytes() {
    let r = config(None, None, None, None);
    let mut padded = vec![0u8];
    padded.extend_from_slice(b"a");
    padded.resize(32, 0);
    assert_eq!(r.has_essid(&Some(padded), "a"), Err(MatchError::NotFound));
}

#[test]
fn has_essid_refuses_reply_over_buffer_length() {
    let r = config(None, None, None, None);
    let mut long = b"Cafe".to_vec();
    long.resize(33, 0);
    assert_eq!(r.has_essid(&Some(long), "Cafe"), Err(MatchError::NotFound));
}

#[test]
fn long_interface_name_is_refused() {
    let r = config(Some("abcdefghijklmnopq"), Some("192.0.2.5"), None, None);
    assert_eq!(r.find_match(), Err(MatchError::InterfaceNameTooLong));
    let ok = config(Some("abcdefghijklmnop"), Some("192.0.2.5"), None, None);
    assert_eq!(ok.find_match(), Ok(Lookup::Addresses));
}

#[test]
fn no_criterion_is_refused() {
    let r = config(None, None, None, None);
    assert_eq!(r.find_match(), Err(MatchError::NoCriterion));
}

#[test]
fn selects_by_name_or_any() {
    assert!(config(None, None, None, None).selects("eth0"));
    assert!(config(Some("eth0"), None, None, None).selects("eth0"));
    assert!(!config(Some("eth0"), None, None, None).selects("wlan0"));
}

#[test]
fn cidr_network_round_trip() {
    let r = cidr("203.0.113.77/21");
    let t = r.network();
    let text = format!(
        "{}.{}.{}.{}/{}",
        t >> 24,
        (t >> 16) & 0xff,
        (t >> 8) & 0xff,
        t & 0xff,
        r.mask().leading_ones()
    );
    assert_eq!(text, "203.0.112.0/21");
    let back = cidr(&text);
    assert_eq!(back.network(), t);
    assert_eq!(back.mask(), r.mask());
    assert_eq!(r.mask().count_ones(), 21);
}
