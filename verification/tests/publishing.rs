use kube_node_dns::address::{parse_address, IpAddr};
use kube_node_dns::coordinates::{CoordinateNumbers, Single};
use kube_node_dns::error::Error;
use kube_node_dns::hosted_zone::{
    find_hosted_zone_for_domain, find_hosted_zones, public_hosted_zones, record_name_in_zone,
    remove_fqdn_trailing_dot, HostedZone,
};
use kube_node_dns::name_map::NameMap;
use kube_node_dns::node::{Node, NodeCondition, COORDINATES_ANNOTATION, NODE_IPS_ANNOTATION};
use kube_node_dns::publish_loop::{PublishLoop, WatchAction, WatchInput};
use kube_node_dns::publisher::{DnsPublisher, NodeEvent};
use kube_node_dns::records::{record_type, replaced_records, ExistingRecord, RecordType};

fn ip(text: &str) -> IpAddr {
    parse_address(text).unwrap()
}

fn node(name: Option<&str>, ips: &str, coordinates: Option<&str>) -> Node {
    let mut map = NameMap::new();
    map.insert(NODE_IPS_ANNOTATION.to_string(), ips.to_string());
    if let Some(text) = coordinates {
        map.insert(COORDINATES_ANNOTATION.to_string(), text.to_string());
    }
    Node {
        name: name.map(|n| n.to_string()),
        annotations: Some(map),
        unschedulable: false,
        conditions: vec![NodeCondition { kind: "Ready".to_string(), status: "True".to_string() }],
    }
}

fn cordoned(name: &str, ips: &str) -> Node {
    let mut n = node(Some(name), ips, None);
    n.unschedulable = true;
    n
}

fn numbers(event: &NodeEvent) -> CoordinateNumbers {
    let read = |text: &str| text.parse::<f32>().ok().map(|x| Single { bits: x.to_bits() });
    match event.coordinate_texts() {
        Some((a, b)) => CoordinateNumbers { latitude: read(&a), longitude: read(&b) },
        None => CoordinateNumbers { latitude: None, longitude: None },
    }
}

fn handle(publisher: &mut DnsPublisher, event: NodeEvent) -> Result<bool, Error> {
    let n = numbers(&event);
    publisher.handle_event(&event, n)
}

fn feed(publish_loop: &mut PublishLoop, event: NodeEvent) -> (WatchAction, bool) {
    let n = numbers(&event);
    let step = publish_loop.step(&WatchInput::Event(event), n);
    (step.action, step.error.is_some())
}

fn zone(id: &str, name: &str, private_zone: Option<bool>) -> HostedZone {
    HostedZone { id: id.to_string(), name: name.to_string(), private_zone }
}

#[test]
fn nodes_come_change_and_go() {
    let mut p = DnsPublisher::new(vec![]);
    assert!(handle(&mut p, NodeEvent::Apply(node(Some("a"), "9.9.9.9", None))).unwrap());
    assert!(!handle(&mut p, NodeEvent::Apply(node(Some("a"), "9.9.9.9", None))).unwrap());
    assert!(handle(&mut p, NodeEvent::InitApply(node(Some("b"), "8.8.8.8", Some("1,2")))).unwrap());
    assert!(handle(&mut p, NodeEvent::Apply(node(Some("a"), "9.9.9.9,1.1.1.1", None))).unwrap());
    assert_eq!(p.nodes().get("a").unwrap().ips, vec![ip("9.9.9.9"), ip("1.1.1.1")]);
    assert_eq!(p.nodes().get("b").unwrap().ips, vec![ip("8.8.8.8")]);
    assert!(!handle(&mut p, NodeEvent::Delete(node(Some("c"), "9.9.9.9", None))).unwrap());
    assert!(handle(&mut p, NodeEvent::Delete(node(Some("a"), "", None))).unwrap());
    assert!(p.nodes().get("a").is_none());
    assert_eq!(p.nodes().len(), 1);
    assert!(!handle(&mut p, NodeEvent::Init).unwrap());
    assert!(!handle(&mut p, NodeEvent::InitDone).unwrap());
    assert_eq!(p.nodes().name_at(0), "b");
}

#[test]
fn unfit_nodes_are_dropped() {
    let unready = |status: &str| {
        let mut n = node(Some("a"), "9.9.9.9", None);
        n.conditions[0].status = status.to_string();
        n
    };
    for n in [
        node(Some("a"), "", None),
        cordoned("a", "9.9.9.9"),
        cordoned("a", "nonsense"),
        unready("False"),
        unready("Unknown"),
    ] {
        let mut p = DnsPublisher::new(vec![]);
        assert!(handle(&mut p, NodeEvent::Apply(node(Some("a"), "9.9.9.9", None))).unwrap());
        assert!(handle(&mut p, NodeEvent::Apply(n)).unwrap());
        assert_eq!(p.nodes().len(), 0);
        assert!(!handle(&mut p, NodeEvent::Apply(cordoned("a", "9.9.9.9"))).unwrap());
    }
}

#[test]
fn coordinates_are_compared_as_numbers() {
    let mut p = DnsPublisher::new(vec![]);
    assert!(handle(&mut p, NodeEvent::Apply(node(Some("a"), "9.9.9.9", Some("0.0,12.340")))).unwrap());
    assert!(!handle(&mut p, NodeEvent::Apply(node(Some("a"), "9.9.9.9", Some("-0,12.34")))).unwrap());
    assert!(handle(&mut p, NodeEvent::Apply(node(Some("a"), "9.9.9.9", Some("0,12.35")))).unwrap());
    assert!(handle(&mut p, NodeEvent::Apply(node(Some("a"), "9.9.9.9", Some("nan,1")))).unwrap());
    assert!(handle(&mut p, NodeEvent::Apply(node(Some("a"), "9.9.9.9", Some("nan,1")))).unwrap());
}

#[test]
fn bad_events_change_nothing() {
    let mut p = DnsPublisher::new(vec![]);
    assert!(handle(&mut p, NodeEvent::Apply(node(Some("a"), "9.9.9.9", None))).unwrap());
    let error = handle(&mut p, NodeEvent::Apply(node(None, "9.9.9.9", None))).unwrap_err();
    assert_eq!(error.message(), "received 'apply' node event without a name");
    let error = handle(&mut p, NodeEvent::InitApply(node(None, "9.9.9.9", None))).unwrap_err();
    assert!(matches!(error, Error::NamelessApply));
    let error = handle(&mut p, NodeEvent::Delete(node(None, "9.9.9.9", None))).unwrap_err();
    assert!(matches!(error, Error::NamelessDelete));
    assert_eq!(error.message(), "received 'delete' node event without a name");
    assert!(handle(&mut p, NodeEvent::Apply(node(Some("a"), "bad", None))).is_err());
    assert!(handle(&mut p, NodeEvent::Apply(node(Some("a"), "9.9.9.9", Some("bad")))).is_err());
    assert_eq!(p.nodes().get("a").unwrap().ips, vec![ip("9.9.9.9")]);
}

#[test]
fn changes_are_published_when_the_watch_is_current() {
    let mut l = PublishLoop::new(DnsPublisher::new(vec![]));
    assert_eq!(feed(&mut l, NodeEvent::Init), (WatchAction::Continue, false));
    assert_eq!(feed(&mut l, NodeEvent::InitApply(node(Some("a"), "9.9.9.9", None))), (WatchAction::Continue, false));
    assert_eq!(feed(&mut l, NodeEvent::InitApply(node(Some("b"), "bad", None))), (WatchAction::Continue, true));
    assert_eq!(feed(&mut l, NodeEvent::InitDone), (WatchAction::Publish, false));
    assert_eq!(feed(&mut l, NodeEvent::Apply(node(Some("a"), "9.9.9.9", None))), (WatchAction::Continue, false));
    assert_eq!(feed(&mut l, NodeEvent::Apply(node(Some("b"), "8.8.8.8", None))), (WatchAction::Publish, false));
    assert_eq!(feed(&mut l, NodeEvent::Init), (WatchAction::Continue, false));
    assert_eq!(feed(&mut l, NodeEvent::InitApply(node(Some("b"), "8.8.4.4", None))), (WatchAction::Continue, false));
    assert_eq!(feed(&mut l, NodeEvent::Apply(node(None, "8.8.4.4", None))), (WatchAction::Publish, true));
    assert_eq!(feed(&mut l, NodeEvent::InitDone), (WatchAction::Continue, false));
    assert_eq!(feed(&mut l, NodeEvent::Delete(node(Some("a"), "", None))), (WatchAction::Publish, false));
    assert_eq!(l.publisher().nodes().len(), 1);
    let none = CoordinateNumbers { latitude: None, longitude: None };
    assert_eq!(l.step(&WatchInput::StreamError, none).action, WatchAction::Continue);
    assert_eq!(l.step(&WatchInput::StreamEnd, none).action, WatchAction::Stop);
    assert_eq!(l.step(&WatchInput::Shutdown, none).action, WatchAction::Stop);
}

#[test]
fn unfit_nodes_are_unpublished_at_once() {
    let mut l = PublishLoop::new(DnsPublisher::new(vec![]));
    for n in [cordoned("a", "9.9.9.9"), node(Some("a"), "", None)] {
        assert_eq!(feed(&mut l, NodeEvent::Apply(node(Some("a"), "9.9.9.9", None))), (WatchAction::Publish, false));
        assert_eq!(feed(&mut l, NodeEvent::Apply(n)), (WatchAction::Publish, false));
        assert_eq!(l.publisher().records().len(), 0);
        assert_eq!(l.publisher().nodes().len(), 0);
    }
}

#[test]
fn events_on_different_nodes_commute() {
    let events = || [
        NodeEvent::Apply(node(Some("a"), "9.9.9.9", None)),
        NodeEvent::Delete(node(Some("b"), "", None)),
        NodeEvent::Apply(cordoned("c", "8.8.8.8")),
    ];
    let start = || {
        let mut p = DnsPublisher::new(vec![]);
        handle(&mut p, NodeEvent::Apply(node(Some("b"), "1.1.1.1", None))).unwrap();
        p
    };
    let (mut forward, mut backward) = (start(), start());
    let there: Vec<bool> = events().into_iter().map(|e| handle(&mut forward, e).unwrap()).collect();
    let mut back: Vec<bool> = events().into_iter().rev().map(|e| handle(&mut backward, e).unwrap()).collect();
    back.reverse();
    assert_eq!(there, vec![true, true, false]);
    assert_eq!(there, back);
    assert_eq!((forward.nodes().len(), backward.nodes().len()), (1, 1));
    assert!(forward.nodes().get("a") == backward.nodes().get("a"));
}

#[test]
fn nothing_is_published_without_change() {
    let mut l = PublishLoop::new(DnsPublisher::new(vec![]));
    assert_eq!(feed(&mut l, NodeEvent::InitDone), (WatchAction::Continue, false));
    assert_eq!(feed(&mut l, NodeEvent::Apply(cordoned("a", "9.9.9.9"))), (WatchAction::Continue, false));
    assert_eq!(feed(&mut l, NodeEvent::Delete(node(Some("a"), "", None))), (WatchAction::Continue, false));
}

#[test]
fn more_zones_are_no_less_specific() {
    let mut zones = vec![zone("1", "example.com.", None)];
    for (id, name, expected) in [("2", "com.", "1"), ("3", "b.example.com.", "3"), ("4", "example.com.", "3")] {
        zones.push(zone(id, name, None));
        assert_eq!(find_hosted_zone_for_domain(&zones, "a.b.example.com").ok().unwrap().hosted_zone.id, expected);
    }
}

#[test]
fn trailing_dots() {
    assert_eq!(remove_fqdn_trailing_dot("example.com."), "example.com");
    assert_eq!(remove_fqdn_trailing_dot("example.com"), "example.com");
    assert_eq!(remove_fqdn_trailing_dot("example.com.."), "example.com.");
    assert_eq!(remove_fqdn_trailing_dot("."), "");
    assert_eq!(remove_fqdn_trailing_dot(""), "");
}

fn expected_record_name(domain: &str, zone: &str) -> Option<String> {
    let end = match zone.rsplit_once('.') {
        Some((z, "")) => z,
        _ => zone,
    };
    if end == domain {
        return Some("@".to_string());
    }
    match domain.rsplit_once(end) {
        Some((rest, "")) => match rest.rsplit_once('.') {
            Some((name, "")) => Some(name.to_string()),
            _ => None,
        },
        _ => None,
    }
}

#[test]
fn record_names() {
    assert_eq!(record_name_in_zone("example.com", "example.com."), Some("@".to_string()));
    assert_eq!(record_name_in_zone("www.example.com", "example.com."), Some("www".to_string()));
    assert_eq!(record_name_in_zone("a.b.example.com", "example.com"), Some("a.b".to_string()));
    assert_eq!(record_name_in_zone("notexample.com", "example.com."), None);
    assert_eq!(record_name_in_zone(".example.com", "example.com."), Some("".to_string()));
    assert_eq!(record_name_in_zone("example.org", "example.com."), None);
    let names = [
        "", ".", "..", "a", "a.", ".a", "a.a", "a.a.", "a.a.a", "b.a", "b.a.a", "aa", "aa.a", "a.aa",
        "b.b.a.b", "example.com", "example.com.example.com", "x.example.com", "com", "\u{e9}.com",
    ];
    for domain in names {
        for zone in names {
            assert_eq!(
                record_name_in_zone(domain, zone), expected_record_name(domain, zone), "{domain:?} {zone:?}",
            );
        }
    }
}

#[test]
fn the_longest_zone_wins() {
    let zones = vec![
        zone("1", "com.", None),
        zone("2", "b.example.com.", None),
        zone("3", "example.com.", None),
        zone("4", "example.org.", None),
    ];
    let found = find_hosted_zone_for_domain(&zones, "a.b.example.com").ok().unwrap();
    assert_eq!(found.hosted_zone.id, "2");
    assert_eq!(found.record_name, "a");
    assert_eq!(found.domain, "a.b.example.com");
    let found = find_hosted_zone_for_domain(&zones, "b.example.com").ok().unwrap();
    assert_eq!((found.hosted_zone.id.as_str(), found.record_name.as_str()), ("2", "@"));
    let found = find_hosted_zone_for_domain(&zones, "example.com").ok().unwrap();
    assert_eq!((found.hosted_zone.id.as_str(), found.record_name.as_str()), ("3", "@"));
    let found = find_hosted_zone_for_domain(&zones, "x.com").ok().unwrap();
    assert_eq!((found.hosted_zone.id.as_str(), found.record_name.as_str()), ("1", "x"));
    let error = find_hosted_zone_for_domain(&zones, "example.net").err().unwrap();
    assert!(matches!(&error, Error::NoHostedZone { domain } if domain == "example.net"));
    assert_eq!(error.message(), "no hosted zone found for domain: example.net");
}

#[test]
fn the_last_of_equal_zones_wins() {
    let zones = vec![
        zone("1", "example.com.", None),
        zone("2", "example.com.", None),
        zone("3", "example.com", None),
    ];
    assert_eq!(find_hosted_zone_for_domain(&zones, "www.example.com").ok().unwrap().hosted_zone.id, "2");
}

#[test]
fn private_zones_are_left_out() {
    let zones = vec![
        zone("1", "a.", Some(true)), zone("2", "b.", None), zone("3", "c.", Some(false)), zone("4", "d.", Some(true)),
    ];
    let ids: Vec<String> = public_hosted_zones(&zones).into_iter().map(|z| z.id).collect();
    assert_eq!(ids, vec!["2".to_string(), "3".to_string()]);
    let names = vec!["x.a".to_string()];
    assert_eq!(find_hosted_zones(&zones, &names).ok().unwrap()[0].hosted_zone.id, "1");
    assert!(find_hosted_zones(&public_hosted_zones(&zones), &names).is_err());
}

#[test]
fn every_domain_needs_a_zone() {
    let zones = vec![zone("1", "example.com.", None)];
    let names = |list: &[&str]| list.iter().map(|n| n.to_string()).collect::<Vec<String>>();
    let found = find_hosted_zones(&zones, &names(&["example.com", "www.example.com"])).ok().unwrap();
    assert_eq!(found.len(), 2);
    assert_eq!(found[0].record_name, "@");
    assert_eq!(found[1].record_name, "www");
    let error = find_hosted_zones(&zones, &names(&["example.com", "x.org", "y.org"])).err().unwrap();
    assert!(matches!(&error, Error::NoHostedZone { domain } if domain == "x.org"));
}

#[test]
fn every_domain_has_the_records_of_all_nodes() {
    let zones = vec![zone("1", "example.com.", None)];
    let domains = find_hosted_zones(&zones, &vec!["example.com".to_string(), "www.example.com".to_string()]).ok().unwrap();
    let mut p = DnsPublisher::new(domains);
    handle(&mut p, NodeEvent::Apply(node(Some("a"), "9.9.9.9,2001::1", Some("1,2")))).unwrap();
    handle(&mut p, NodeEvent::Apply(node(Some("b"), "8.8.8.8", None))).unwrap();
    let mut records: Vec<(String, String, IpAddr, bool)> = p.records().into_iter()
        .map(|r| (r.domain, r.node, r.address, r.coordinates.is_some())).collect();
    records.sort_by_key(|r| (r.0.clone(), r.1.clone()));
    let expected: Vec<(String, String, IpAddr, bool)> = [
        ("example.com", "a", "9.9.9.9", true),
        ("example.com", "a", "2001::1", true),
        ("example.com", "b", "8.8.8.8", false),
        ("www.example.com", "a", "9.9.9.9", true),
        ("www.example.com", "a", "2001::1", true),
        ("www.example.com", "b", "8.8.8.8", false),
    ].iter().map(|(d, n, i, c)| (d.to_string(), n.to_string(), ip(i), *c)).collect();
    assert_eq!(records, expected);
    assert_eq!(record_type(ip("9.9.9.9")), RecordType::A);
    assert_eq!(record_type(ip("2001::1")), RecordType::Aaaa);
}

#[test]
fn address_records_of_the_domain_are_replaced() {
    let record = |name: &str, kind: RecordType| ExistingRecord { name: name.to_string(), kind };
    let existing = vec![
        record("example.com.", RecordType::Other),
        record("example.com.", RecordType::A),
        record("www.example.com.", RecordType::A),
        record("example.com", RecordType::Aaaa),
        record("example.org.", RecordType::Aaaa),
        record("example.com.", RecordType::A),
    ];
    assert_eq!(replaced_records("example.com", &existing), vec![1, 3, 5]);
    assert_eq!(replaced_records("www.example.com", &existing), vec![2]);
    assert_eq!(replaced_records("example.net", &existing), Vec::<usize>::new());
}
