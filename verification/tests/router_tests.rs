use repo_proxy::config::{IpAddress, IpPrefix, View};
use repo_proxy::prefix_match::PrefixMatcher;

fn view(name: &str, source: Vec<IpPrefix>) -> View {
    View { name: String::from(name), source }
}

fn v4(bits: u32, len: u32) -> IpPrefix {
    IpPrefix::V4 { bits, len }
}

fn v6(bits: u128, len: u32) -> IpPrefix {
    IpPrefix::V6 { bits, len }
}

#[test]
fn lookup_resolves_configured_prefix() {
    // 10.0.0.0/8 -> corp
    let m = PrefixMatcher::try_new(vec![view("corp", vec![v4(0x0A00_0000, 8)])]);
    assert_eq!(m.lookup(IpAddress::V4(0x0A01_0203)), Some(String::from("corp")));
}

#[test]
fn lookup_prefers_longest_prefix_regardless_of_order() {
    // 10.0.0.0/8 -> corp declared first, 10.1.0.0/16 -> lab second ...
    let m1 = PrefixMatcher::try_new(vec![
        view("corp", vec![v4(0x0A00_0000, 8)]),
        view("lab", vec![v4(0x0A01_0000, 16)]),
    ]);
    // ... and the other way round: the longest match must win either way.
    let m2 = PrefixMatcher::try_new(vec![
        view("lab", vec![v4(0x0A01_0000, 16)]),
        view("corp", vec![v4(0x0A00_0000, 8)]),
    ]);
    // 10.1.2.3 is inside both prefixes; /16 is more specific.
    assert_eq!(m1.lookup(IpAddress::V4(0x0A01_0203)), Some(String::from("lab")));
    assert_eq!(m2.lookup(IpAddress::V4(0x0A01_0203)), Some(String::from("lab")));
    // 10.2.3.4 is only inside the /8.
    assert_eq!(m1.lookup(IpAddress::V4(0x0A02_0304)), Some(String::from("corp")));
    assert_eq!(m2.lookup(IpAddress::V4(0x0A02_0304)), Some(String::from("corp")));
}

#[test]
fn lookup_misses_unconfigured_address() {
    let m = PrefixMatcher::try_new(vec![view("corp", vec![v4(0x0A00_0000, 8)])]);
    // 192.168.1.1 matches no configured prefix.
    assert_eq!(m.lookup(IpAddress::V4(0xC0A8_0101)), None);
    // The v6 table is empty altogether.
    assert_eq!(m.lookup(IpAddress::V6(1)), None);
}

#[test]
fn lookup_same_prefix_declared_twice_takes_the_later_view() {
    let m = PrefixMatcher::try_new(vec![
        view("first", vec![v4(0x0A00_0000, 8)]),
        view("second", vec![v4(0x0A00_0000, 8)]),
    ]);
    assert_eq!(m.lookup(IpAddress::V4(0x0A00_0001)), Some(String::from("second")));
}

#[test]
fn lookup_prefix_with_host_bits_matches_like_its_canonical_form() {
    // 10.1.2.3/8 declares the same network as 10.0.0.0/8.
    let m = PrefixMatcher::try_new(vec![view("corp", vec![v4(0x0A01_0203, 8)])]);
    assert_eq!(m.lookup(IpAddress::V4(0x0AFF_FFFF)), Some(String::from("corp")));
    assert_eq!(m.lookup(IpAddress::V4(0x0B00_0000)), None);
}

#[test]
fn lookup_v6_longest_prefix() {
    // 2001:db8::/32 -> wide, 2001:db8:1::/48 -> narrow
    let wide: u128 = 0x2001_0db8 << 96;
    let narrow: u128 = (0x2001_0db8 << 96) | (1u128 << 80);
    let m = PrefixMatcher::try_new(vec![
        view("wide", vec![v6(wide, 32)]),
        view("narrow", vec![v6(narrow, 48)]),
    ]);
    assert_eq!(m.lookup(IpAddress::V6(narrow | 7)), Some(String::from("narrow")));
    assert_eq!(m.lookup(IpAddress::V6(wide | 9)), Some(String::from("wide")));
    assert_eq!(m.lookup(IpAddress::V6(0xFE80 << 112)), None);
}

#[test]
fn lookup_zero_length_prefix_matches_everything_in_its_family() {
    let m = PrefixMatcher::try_new(vec![view("all4", vec![v4(0, 0)])]);
    assert_eq!(m.lookup(IpAddress::V4(0xDEAD_BEEF)), Some(String::from("all4")));
    assert_eq!(m.lookup(IpAddress::V6(42)), None);
}
