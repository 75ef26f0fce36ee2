use kube_node_dns::address::{parse_address, IpAddr};
use kube_node_dns::node_ips::{get_ips, interface_ips, ip_list, parse_ip_list, Interface};

/// How the standard library reads and writes an address, by way of the type
/// that `ip_rfc::global` takes.
fn std_text<T: std::str::FromStr + ToString>(_like: fn(&T) -> bool, text: &str) -> Option<String> {
    text.parse::<T>().ok().map(|a| a.to_string())
}

fn assert_reads_like_std(text: &str) {
    assert_eq!(parse_address(text).map(|a| a.to_text()), std_text(ip_rfc::global, text), "{text:?}");
}

fn ip(text: &str) -> IpAddr {
    parse_address(text).unwrap()
}

fn iface(name: &str, addrs: &[&str]) -> Interface {
    Interface {
        name: name.to_string(),
        addrs: addrs.iter().map(|a| ip(a)).collect(),
    }
}

const TEXTS: &[&str] = &[
    "", "0", "0.0.0.0", "1.2.3.4", "255.255.255.255", "256.1.1.1", "1.2.3", "1.2.3.4.5", "01.2.3.4",
    "1.02.3.4", "1.2.3.00", "1.2.3.4 ", " 1.2.3.4", "1..3.4", ".1.2.3.4", "1.2.3.4.", "1.2.3.a",
    "+1.2.3.4", "1.2.3.0004", "1,2.3.4", "::", "::1", "1::", "1::2", ":", ":::", "::::", "1:::2",
    "::1::2", "1::2::3", ":1", "1:", ":1::2", "1::2:", "1:2:3:4:5:6:7:8", "1:2:3:4:5:6:7",
    "1:2:3:4:5:6:7:8:9", "1:2:3:4:5:6:7::", "::1:2:3:4:5:6:7", "1:2:3:4:5:6::7", "1:2:3::4:5:6:7",
    "1:2:3:4::5:6:7:8", "::1:2:3:4:5:6:7:8", "1:2:3:4:5:6:7:8::", "abcd:ef01::", "ABCD:EF01::",
    "12345::", "0000::", "00000::", "g::", "::ffff:1.2.3.4", "::1.2.3.4", "1.2.3.4::", "::1.2.3.4:5",
    "1:2:3:4:5:6:1.2.3.4", "1:2:3:4:5:6:7:1.2.3.4", "1:2:3:4:5::1.2.3.4", "1:2:3:4:5:6::1.2.3.4",
    "::1.2.3", "::1.2.3.400", "::01.2.3.4", "1:1.2.3.4::", "fe80::1%eth0", "[::1]", "::/0",
    "2001:db8:85a3::8a2e:370:7334", "64:ff9b::192.0.2.33", "::0.0.0.0", "1:0:0:2:0:0:0:3",
    "0:0:1:0:0:0:0:1", "\u{e9}::", "1.2.3.\u{662}",
];

#[test]
fn addresses_are_read_like_std_does() {
    for text in TEXTS {
        assert_reads_like_std(text);
    }
    let alphabet = ['0', '1', 'f', ':', '.'];
    for length in 0..8u32 {
        for mut n in 0..5usize.pow(length) {
            let mut text = String::new();
            for _ in 0..length {
                text.push(alphabet[n % 5]);
                n /= 5;
            }
            assert_reads_like_std(&text);
        }
    }
}

#[test]
fn zero_segments_are_written_like_std_does() {
    let values = ["0", "1", "ffff", "ab0"];
    for n in 0..65536usize {
        let parts: Vec<&str> = (0..8).map(|i| values[(n >> (2 * i)) % 4]).collect();
        assert_reads_like_std(&parts.join(":"));
    }
}

#[test]
fn mixtures_are_read_like_std_does() {
    let pieces = ["1", "0", ":", "::", ".", "ffff", "255", "256", "1.2.3.4", ":2:3", "00", "a:b:c:d", "12345"];
    let mut seed: u64 = 12345;
    let mut next = |bound: u64| {
        seed = seed.wrapping_mul(6364136223846793005).wrapping_add(1442695040888963407);
        (seed >> 33) % bound
    };
    for _ in 0..60000 {
        let length = next(9);
        let text: String = (0..length).map(|_| pieces[next(13) as usize]).collect();
        assert_reads_like_std(&text);
    }
}

#[test]
fn addresses_are_ordered_like_std_does() {
    fn pairs<T: std::str::FromStr + Ord>(_like: fn(&T) -> bool) -> Vec<(T, IpAddr)> {
        TEXTS.iter().filter_map(|t| t.parse::<T>().ok().map(|a| (a, ip(t)))).collect()
    }
    let list = pairs(ip_rfc::global);
    for (a, x) in &list {
        for (b, y) in &list {
            assert_eq!(x.precedes(y), a < b);
        }
    }
}

#[test]
fn address_texts() {
    assert_eq!(IpAddr::V4(203, 0, 113, 7).to_text(), "203.0.113.7");
    assert_eq!(IpAddr::V6(0, 0, 0, 0, 0, 0, 0, 0).to_text(), "::");
    assert_eq!(IpAddr::V6(0x2a01, 0x4f8, 0, 0, 1, 0, 0, 0).to_text(), "2a01:4f8:0:0:1::");
    assert_eq!(IpAddr::V6(0, 0, 0, 0, 0, 0xffff, 0xc000, 0x221).to_text(), "::ffff:192.0.2.33");
    assert_eq!(IpAddr::V6(1, 0, 2, 3, 4, 5, 6, 7).to_text(), "1:0:2:3:4:5:6:7");
}

#[test]
fn reachable_addresses() {
    let cases = [
        ("0.0.0.0", false), ("0.1.0.0", false), ("10.9.8.7", false), ("127.1.2.3", false),
        ("172.15.0.1", true), ("172.16.0.1", false), ("172.31.254.253", false), ("172.32.0.0", true),
        ("169.254.253.242", false), ("169.253.0.0", true), ("192.0.0.8", false), ("192.0.0.9", true),
        ("192.0.0.10", true), ("192.0.0.11", false), ("192.0.0.255", false), ("192.0.1.0", true),
        ("192.0.2.183", false), ("192.1.2.183", true), ("192.168.254.253", false),
        ("198.17.0.0", true), ("198.18.0.0", false), ("198.19.255.255", false), ("198.20.0.0", true),
        ("198.51.100.0", false), ("203.0.113.0", false), ("203.2.113.0", true), ("224.0.0.0", true),
        ("239.255.255.255", true), ("240.0.0.0", false), ("255.255.255.255", false),
        ("100.63.0.0", true), ("100.64.0.0", false), ("100.127.255.255", false), ("100.128.0.0", true),
        ("::", false), ("::1", false), ("::2", true), ("1::", true), ("1::1", true),
        ("fbff::", true), ("fc00::", false), ("fdff:ffff::", false), ("fe00::", true),
        ("fe80:ffff::", false), ("febf:ffff::", false), ("fec0::", true), ("ff01::", false),
        ("ff0e::", true), ("ffee::1", true), ("ff0f::", false), ("2001:db8::1", false),
        ("2001:db9::1", true), ("2001:4860:4860::8888", true),
    ];
    for (text, reachable) in cases {
        let found = interface_ips(&iface("eth0", &[text]));
        assert_eq!(found.len() == 1, reachable, "{text}");
        assert_eq!(ip_rfc::global(&text.parse().unwrap()), reachable, "{text}");
    }
}

#[test]
fn found_addresses_are_sorted_and_distinct() {
    let found = get_ips(&vec![
        iface("lo", &["127.0.0.1", "::1"]),
        iface("eth0", &["198.20.0.9", "10.0.0.1", "2001:4860:4860::8888"]),
        iface("eth1", &["8.8.8.8", "198.20.0.9", "fe80::1", "2001:4860:4860::8844"]),
    ]);
    let expected: Vec<IpAddr> = ["8.8.8.8", "198.20.0.9", "2001:4860:4860::8844", "2001:4860:4860::8888"]
        .iter().map(|t| ip(t)).collect();
    assert_eq!(found, expected);
    assert_eq!(ip_list(&found), "8.8.8.8,198.20.0.9,2001:4860:4860::8844,2001:4860:4860::8888");
}

#[test]
fn found_addresses_do_not_depend_on_the_interfaces() {
    let a = get_ips(&vec![iface("a", &["8.8.8.8", "9.9.9.9"]), iface("b", &["1.1.1.1"])]);
    let b = get_ips(&vec![
        iface("x", &["1.1.1.1", "9.9.9.9", "1.1.1.1"]),
        iface("y", &[]),
        iface("z", &["8.8.8.8"]),
    ]);
    assert_eq!(a, b);
    assert_eq!(get_ips(&vec![]), vec![]);
    assert_eq!(get_ips(&vec![iface("lo", &["127.0.0.1"])]), vec![]);
}

#[test]
fn interfaces_keep_their_order() {
    let found = interface_ips(&iface("eth0", &["9.9.9.9", "10.0.0.1", "8.8.8.8", "9.9.9.9"]));
    assert_eq!(found, vec![ip("9.9.9.9"), ip("8.8.8.8"), ip("9.9.9.9")]);
}

#[test]
fn lists_are_read_back() {
    let ips = vec![ip("9.9.9.9"), ip("::ffff:1.2.3.4"), ip("8.8.8.8"), ip("2001::")];
    assert_eq!(ip_list(&ips), "9.9.9.9,::ffff:1.2.3.4,8.8.8.8,2001::");
    assert_eq!(parse_ip_list(&ip_list(&ips)), Ok(ips));
    assert_eq!(ip_list(&vec![]), "");
}

#[test]
fn the_first_bad_item_is_reported() {
    assert_eq!(parse_ip_list("1.1.1.1,nope,also"), Err("nope".to_string()));
    assert_eq!(parse_ip_list(""), Err("".to_string()));
    assert_eq!(parse_ip_list("1.1.1.1,"), Err("".to_string()));
    assert_eq!(parse_ip_list("1.1.1.1, 8.8.8.8"), Err(" 8.8.8.8".to_string()));
}
