use kube_node_dns::address::{parse_address, IpAddr};
use kube_node_dns::annotate::{
    set_annotation, AnnotationTargets, CommitStep, NodeUpdate, MAX_RETRIES, RETRY_DELAY_SECONDS,
};
use kube_node_dns::coordinates::{coordinate_texts, CoordinateNumbers, Coordinates, Single};
use kube_node_dns::error::Error;
use kube_node_dns::name_map::NameMap;
use kube_node_dns::node::{Node, NodeCondition, COORDINATES_ANNOTATION, NODE_IPS_ANNOTATION};
use kube_node_dns::node_ips::{get_ips, Interface};
use kube_node_dns::node_state::{node_coordinate_texts, NodeState};

fn ip(text: &str) -> IpAddr {
    parse_address(text).unwrap()
}

fn condition(kind: &str, status: &str) -> NodeCondition {
    NodeCondition { kind: kind.to_string(), status: status.to_string() }
}

fn node(name: Option<&str>, annotations: &[(&str, &str)]) -> Node {
    let mut map = NameMap::new();
    for (key, value) in annotations {
        map.insert(key.to_string(), value.to_string());
    }
    Node {
        name: name.map(|n| n.to_string()),
        annotations: Some(map),
        unschedulable: false,
        conditions: vec![condition("MemoryPressure", "False"), condition("Ready", "True")],
    }
}

fn single(x: f32) -> Single {
    Single { bits: x.to_bits() }
}

fn read(parts: Option<(String, String)>) -> CoordinateNumbers {
    match parts {
        Some((latitude, longitude)) => CoordinateNumbers {
            latitude: latitude.parse::<f32>().ok().map(single),
            longitude: longitude.parse::<f32>().ok().map(single),
        },
        None => CoordinateNumbers { latitude: None, longitude: None },
    }
}

fn state_of(node: &Node) -> Result<Option<NodeState>, Error> {
    NodeState::from_node(node, read(node_coordinate_texts(node)))
}

#[test]
fn names_of_the_annotations() {
    assert_eq!(NODE_IPS_ANNOTATION, "kube-node-dns.kyle.space/node-ips");
    assert_eq!(COORDINATES_ANNOTATION, "kube-node-dns.kyle.space/aws-geoproximity-coordinates");
}

#[test]
fn a_node_is_read() {
    let n = node(Some("n1"), &[
        (NODE_IPS_ANNOTATION, "9.9.9.9,2001:db9::1"),
        (COORDINATES_ANNOTATION, "12.34,56.78"),
    ]);
    let state = state_of(&n).unwrap().unwrap();
    assert_eq!(state.name, "n1");
    assert_eq!(state.ips, vec![ip("9.9.9.9"), ip("2001:db9::1")]);
    let c = state.coordinates.unwrap();
    assert_eq!(f32::from_bits(c.latitude.bits), 12.34);
    assert_eq!(f32::from_bits(c.longitude.bits), 56.78);
}

#[test]
fn coordinates_are_optional() {
    let state = state_of(&node(Some("n1"), &[(NODE_IPS_ANNOTATION, "9.9.9.9")])).unwrap().unwrap();
    assert!(state.coordinates.is_none());
}

#[test]
fn nodes_without_records() {
    assert!(state_of(&node(None, &[(NODE_IPS_ANNOTATION, "9.9.9.9")])).unwrap().is_none());
    assert!(state_of(&node(Some("n1"), &[])).unwrap().is_none());
    assert!(state_of(&node(Some("n1"), &[(NODE_IPS_ANNOTATION, "")])).unwrap().is_none());
    let mut bare = node(Some("n1"), &[]);
    bare.annotations = None;
    assert!(state_of(&bare).unwrap().is_none());
    let mut cordoned = node(Some("n1"), &[(NODE_IPS_ANNOTATION, "9.9.9.9")]);
    cordoned.unschedulable = true;
    assert!(state_of(&cordoned).unwrap().is_none());
    for conditions in [
        vec![],
        vec![condition("Ready", "False")],
        vec![condition("Ready", "Unknown")],
        vec![condition("Ready", "true")],
        vec![condition("DiskPressure", "True")],
        vec![condition("Ready", "False"), condition("Ready", "True")],
    ] {
        let mut unready = node(Some("n1"), &[(NODE_IPS_ANNOTATION, "not an address")]);
        unready.conditions = conditions;
        assert!(!unready.is_ready());
        assert!(state_of(&unready).unwrap().is_none());
    }
}

#[test]
fn a_bad_address_is_reported() {
    let error = state_of(&node(Some("n1"), &[(NODE_IPS_ANNOTATION, "9.9.9.9,x"), (COORDINATES_ANNOTATION, "y")]))
        .unwrap_err();
    assert!(matches!(&error, Error::InvalidIp { node, ip } if node == "n1" && ip == "x"));
    assert_eq!(error.message(), "invalid IP for node n1: x");
}

#[test]
fn bad_coordinates_are_reported() {
    for text in ["", "12.34", "12.34;5", "a,b", "1,", ",1", "1, 2", "1,2,3"] {
        let error = state_of(&node(Some("n1"), &[(NODE_IPS_ANNOTATION, "9.9.9.9"), (COORDINATES_ANNOTATION, text)]))
            .unwrap_err();
        assert!(matches!(&error, Error::InvalidCoordinates { text: t } if t == text));
        assert_eq!(
            error.message(),
            format!("invalid coordinates: expected string of the format '<lat>,<lon>', got: {text:?}"),
        );
    }
}

#[test]
fn quotes_are_escaped() {
    let error = Error::InvalidCoordinates { text: "a\"\n".to_string() };
    assert_eq!(
        error.message(),
        "invalid coordinates: expected string of the format '<lat>,<lon>', got: \"a\\\"\\n\"",
    );
}

#[test]
fn coordinates_split_at_the_first_comma() {
    assert_eq!(coordinate_texts("1,2,3"), Some(("1".to_string(), "2,3".to_string())));
    assert_eq!(coordinate_texts(","), Some(("".to_string(), "".to_string())));
    assert_eq!(coordinate_texts("12"), None);
    let c = Coordinates::from_str("-1.5,2e1", read(coordinate_texts("-1.5,2e1"))).unwrap();
    assert_eq!(f32::from_bits(c.latitude.bits), -1.5);
    assert_eq!(f32::from_bits(c.longitude.bits), 20.0);
}

#[test]
fn numbers_compare_as_floats() {
    let values = [0.0f32, -0.0, 1.0, -1.0, f32::NAN, f32::INFINITY, f32::NEG_INFINITY, f32::MIN_POSITIVE, -f32::NAN];
    for a in values {
        for b in values {
            assert_eq!(single(a) == single(b), a == b);
            let x = Coordinates { latitude: single(a), longitude: single(1.0) };
            let y = Coordinates { latitude: single(b), longitude: single(1.0) };
            assert_eq!(x == y, a == b);
            let x = Coordinates { latitude: single(1.0), longitude: single(a) };
            let y = Coordinates { latitude: single(1.0), longitude: single(b) };
            assert_eq!(x == y, a == b);
        }
    }
}

#[test]
fn states_compare_by_their_parts() {
    let make = |name: &str, ips: &[&str], latitude: Option<f32>| NodeState {
        name: name.to_string(),
        ips: ips.iter().map(|t| ip(t)).collect(),
        coordinates: latitude.map(|l| Coordinates { latitude: single(l), longitude: single(2.0) }),
    };
    let a = make("n", &["1.1.1.1", "9.9.9.9"], Some(1.0));
    assert!(a == make("n", &["1.1.1.1", "9.9.9.9"], Some(1.0)));
    assert!(a != make("m", &["1.1.1.1", "9.9.9.9"], Some(1.0)));
    assert!(a != make("n", &["9.9.9.9", "1.1.1.1"], Some(1.0)));
    assert!(a != make("n", &["1.1.1.1"], Some(1.0)));
    assert!(a != make("n", &["1.1.1.1", "9.9.9.9"], Some(1.5)));
    assert!(a != make("n", &["1.1.1.1", "9.9.9.9"], None));
    assert!(make("n", &["1.1.1.1"], None) == make("n", &["1.1.1.1"], None));
}

#[test]
fn maps_hold_one_value_for_a_name() {
    let mut map = NameMap::new();
    map.insert("a".to_string(), 1);
    map.insert("b".to_string(), 2);
    map.insert("a".to_string(), 3);
    assert_eq!(map.len(), 2);
    assert_eq!(map.get("a"), Some(&3));
    assert_eq!(map.get("b"), Some(&2));
    assert_eq!(map.get("c"), None);
    assert!(map.remove("a"));
    assert!(!map.remove("a"));
    assert_eq!(map.get("a"), None);
    assert_eq!(map.name_at(0), "b");
    assert_eq!(map.value_at(0), &2);
}

#[test]
fn annotations_are_set() {
    let mut n = node(Some("n1"), &[("other", "1")]);
    assert!(set_annotation(&mut n, "a", "x"));
    assert!(!set_annotation(&mut n, "a", "x"));
    assert!(set_annotation(&mut n, "a", "y"));
    assert_eq!(n.annotation("a").unwrap(), "y");
    assert_eq!(n.annotation("other").unwrap(), "1");
    n.annotations = None;
    assert!(set_annotation(&mut n, "a", "y"));
    assert_eq!(n.annotation("a").unwrap(), "y");
    assert!(n.annotation("other").is_none());
}

#[test]
fn addresses_go_to_their_usual_annotation() {
    let targets = AnnotationTargets::new(None, None);
    assert_eq!(targets.ips.as_deref(), Some(NODE_IPS_ANNOTATION));
    assert_eq!(targets.node_name, None);
    let targets = AnnotationTargets::new(None, Some("name".to_string()));
    assert_eq!(targets.ips, None);
    assert_eq!(targets.node_name.as_deref(), Some("name"));
    let targets = AnnotationTargets::new(Some("ips".to_string()), None);
    assert_eq!(targets.ips.as_deref(), Some("ips"));
    assert_eq!(targets.node_name, None);
}

#[test]
fn updates_write_what_was_asked_for() {
    let targets = AnnotationTargets::new(Some("ips".to_string()), Some("name".to_string()));
    let update = NodeUpdate::new("n1".to_string(), targets);
    assert!(update.needs_ips());
    let ips = vec![ip("9.9.9.9"), ip("2001::1")];
    let done = update.prepare(Some(node(Some("n1"), &[("name", "n1")])), &ips).ok().unwrap();
    assert_eq!(done.report.ips, Some(true));
    assert_eq!(done.report.node_name, Some(false));
    assert!(done.report.changed());
    assert_eq!(done.node.annotation("ips").unwrap(), "9.9.9.9,2001::1");
    let again = update.prepare(Some(done.node), &ips).ok().unwrap();
    assert_eq!(again.report.ips, Some(false));
    assert_eq!(again.report.node_name, Some(false));
    assert!(!again.report.changed());
    let error = update.prepare(None, &ips).err().unwrap();
    assert!(matches!(&error, Error::NodeNotFound { node } if node == "n1"));
    assert_eq!(error.message(), "node not found: \"n1\"");
    let update = NodeUpdate::new("n1".to_string(), AnnotationTargets::new(None, Some("name".to_string())));
    assert!(!update.needs_ips());
    let done = update.prepare(Some(node(Some("n1"), &[])), &ips).ok().unwrap();
    assert_eq!(done.report.ips, None);
    assert_eq!(done.report.node_name, Some(true));
    assert!(done.report.changed());
    assert!(done.node.annotation("ips").is_none());
}

#[test]
fn one_annotation_for_both_keeps_the_name() {
    let targets = AnnotationTargets::new(Some("x".to_string()), Some("x".to_string()));
    let update = NodeUpdate::new("n1".to_string(), targets);
    let ips = vec![ip("9.9.9.9")];
    let once = update.prepare(Some(node(Some("n1"), &[])), &ips).ok().unwrap();
    assert_eq!(once.node.annotation("x").unwrap(), "n1");
    let again = update.prepare(Some(once.node), &ips).ok().unwrap();
    assert_eq!(again.node.annotation("x").unwrap(), "n1");
    assert!(again.report.changed());
}

#[test]
fn annotated_addresses_are_read_back() {
    let update = NodeUpdate::new("n1".to_string(), AnnotationTargets::new(None, None));
    let ips = vec![ip("9.9.9.9"), ip("2001::1")];
    let done = update.prepare(Some(node(Some("n1"), &[])), &ips).ok().unwrap();
    assert_eq!(state_of(&done.node).unwrap().unwrap().ips, ips);
    let done = update.prepare(Some(done.node), &vec![]).ok().unwrap();
    assert!(state_of(&done.node).unwrap().is_none());
}

#[test]
fn records_are_made_of_reachable_addresses() {
    let update = NodeUpdate::new("n1".to_string(), AnnotationTargets::new(None, None));
    let iface = |addrs: &[&str]| Interface { name: "eth0".to_string(), addrs: addrs.iter().map(|a| ip(a)).collect() };
    let found = get_ips(&vec![iface(&["10.0.0.1", "9.9.9.9"]), iface(&["fe80::1", "2001::1"])]);
    let done = update.prepare(Some(node(Some("n1"), &[])), &found).ok().unwrap();
    assert_eq!(state_of(&done.node).unwrap().unwrap().ips, vec![ip("9.9.9.9"), ip("2001::1")]);
    let done = update.prepare(Some(done.node), &get_ips(&vec![iface(&["10.0.0.1"])])).ok().unwrap();
    assert!(state_of(&done.node).unwrap().is_none());
}

#[test]
fn writes_are_retried_and_given_up() {
    assert_eq!(MAX_RETRIES, 10);
    assert_eq!(RETRY_DELAY_SECONDS, 3);
    let mut update = NodeUpdate::new("n1".to_string(), AnnotationTargets::new(None, None));
    for _ in 0..10 {
        assert_eq!(update.after_commit(false), CommitStep::Retry);
    }
    assert_eq!(update.after_commit(true), CommitStep::Done);
    assert_eq!(update.after_commit(false), CommitStep::GiveUp);
    assert_eq!(update.after_commit(false), CommitStep::GiveUp);
}
