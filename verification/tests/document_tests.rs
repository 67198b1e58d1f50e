use hostcfg::model::{NetplanYaml, Nic, NicOutput, Nameservers};
use hostcfg::errors::IfError;
use hostcfg::ops;

fn simple_doc() -> NetplanYaml {
    let text = "network:\n  ethernets:\n    eth0:\n      addresses:\n        - 192.168.1.5/24\n      gateway4: 192.168.1.1\n";
    NetplanYaml::parse(text).expect("document should parse")
}

#[test]
fn parse_round_trip_simple() {
    let doc = simple_doc();
    let text = doc.to_text();
    let again = NetplanYaml::parse(&text).expect("serialized text should parse");
    assert_eq!(doc, again);
}

#[test]
fn parse_round_trip_full() {
    let text = "network:\n  version: 2\n  renderer: networkd\n  ethernets:\n    eno1:\n      addresses:\n        - 10.0.0.7/24\n      dhcp4: false\n      gateway4: 10.0.0.1\n      nameservers:\n        addresses:\n          - 1.1.1.1\n        search:\n          - example.test\n      optional: true\n  bridges:\n    br0:\n      interfaces:\n        - eno1\n      addresses:\n        - 10.0.1.1/24\n      nameservers:\n        addresses:\n          - 8.8.8.8\n";
    let doc = NetplanYaml::parse(text).expect("document should parse");
    let out = doc.to_text();
    assert_eq!(text, out);
    let again = NetplanYaml::parse(&out).expect("serialized text should parse");
    assert_eq!(doc, again);
}

#[test]
fn parse_rejects_unknown_key() {
    let text = "network:\n  ethernets:\n    eth0:\n      wifi-power: low\n";
    match NetplanYaml::parse(text) {
        Err(IfError::MalformedConfig(_)) => {}
        other => panic!("expected a malformed-config error, got {other:?}"),
    }
}

#[test]
fn parse_rejects_duplicate_names() {
    let text = "network:\n  ethernets:\n    eth0:\n    eth0:\n";
    match NetplanYaml::parse(text) {
        Err(IfError::MalformedConfig(_)) => {}
        other => panic!("expected a malformed-config error, got {other:?}"),
    }
}

#[test]
fn parse_rejects_missing_final_newline() {
    let text = "network:\n  ethernets:";
    assert!(NetplanYaml::parse(text).is_err());
}

#[test]
fn version_survives_round_trip() {
    let text = "network:\n  version: 2\n  ethernets:\n";
    let doc = NetplanYaml::parse(text).expect("document should parse");
    assert_eq!(doc.to_text(), text);
}

#[test]
fn unset_fields_are_omitted() {
    // a freshly reset interface serializes as a bare name line
    let mut doc = simple_doc();
    doc.init_interface("eth0");
    assert_eq!(doc.to_text(), "network:\n  ethernets:\n    eth0:\n");
}

#[test]
fn empty_directory_is_not_found() {
    let contents: Vec<String> = Vec::new();
    match ops::load_netplan_yaml(&contents) {
        Err(IfError::ConfigNotFound) => {}
        other => panic!("expected config-not-found, got {other:?}"),
    }
}

#[test]
fn later_files_override_earlier_ones() {
    let a = "network:\n  ethernets:\n    eth0:\n      dhcp4: true\n".to_string();
    let b = "network:\n  ethernets:\n    eth0:\n      gateway4: 10.0.0.1\n".to_string();
    let doc = ops::load_netplan_yaml(&vec![a, b]).expect("both files parse");
    // the whole interface entry is replaced, not field-merged
    assert_eq!(
        doc.to_text(),
        "network:\n  ethernets:\n    eth0:\n      gateway4: 10.0.0.1\n"
    );
}

#[test]
fn merge_is_associative_on_interface_content() {
    let a = "network:\n  version: 1\n  ethernets:\n    a1:\n      dhcp4: true\n";
    let b = "network:\n  version: 2\n  ethernets:\n    a1:\n      gateway4: 10.0.0.1\n    b1:\n";
    let c = "network:\n  renderer: networkd\n  ethernets:\n    b1:\n      dhcp4: false\n";
    let parse = |t: &str| NetplanYaml::parse(t).unwrap();
    let mut left = parse(a);
    left.merge(parse(b));
    left.merge(parse(c));
    let mut right_tail = parse(b);
    right_tail.merge(parse(c));
    let mut right = parse(a);
    right.merge(right_tail);
    // scalar fields and the sorted interface mapping agree either way
    assert_eq!(left.to_text(), right.to_text());
}

#[test]
fn merge_does_not_create_a_bridge_mapping() {
    let base = "network:\n  ethernets:\n    eth0:\n";
    let incoming = "network:\n  ethernets:\n  bridges:\n    br0:\n      interfaces:\n      addresses:\n      nameservers:\n";
    let mut doc = NetplanYaml::parse(base).unwrap();
    doc.merge(NetplanYaml::parse(incoming).unwrap());
    // the base had no bridge mapping, so none appears
    assert_eq!(doc.to_text(), "network:\n  ethernets:\n    eth0:\n");
}

#[test]
fn merge_folds_bridges_when_base_has_them() {
    let base = "network:\n  ethernets:\n  bridges:\n    br0:\n      interfaces:\n      addresses:\n      nameservers:\n";
    let incoming = "network:\n  ethernets:\n  bridges:\n    br1:\n      interfaces:\n        - eth0\n      addresses:\n      nameservers:\n";
    let mut doc = NetplanYaml::parse(base).unwrap();
    doc.merge(NetplanYaml::parse(incoming).unwrap());
    let text = doc.to_text();
    assert!(text.contains("br0:"));
    assert!(text.contains("br1:"));
}

#[test]
fn sort_invariant_zzz_then_aaa() {
    let mut doc = NetplanYaml::parse("network:\n  ethernets:\n").unwrap();
    let edit_z = NicOutput::new(Some(vec!["10.0.0.1/24".to_string()]), None, None, None);
    let edit_a = NicOutput::new(Some(vec!["10.0.0.2/24".to_string()]), None, None, None);
    ops::set(&mut doc, "zzz", &edit_z).expect("valid edit");
    ops::set(&mut doc, "aaa", &edit_a).expect("valid edit");
    assert_eq!(
        doc.to_text(),
        "network:\n  ethernets:\n    aaa:\n      addresses:\n        - 10.0.0.2/24\n    zzz:\n      addresses:\n        - 10.0.0.1/24\n"
    );
}

#[test]
fn dhcp_and_static_addresses_conflict() {
    let mut doc = simple_doc();
    let before = doc.clone();
    let edit = NicOutput::new(
        Some(vec!["10.0.0.1/24".to_string()]),
        Some(true),
        None,
        None,
    );
    match ops::set(&mut doc, "eth0", &edit) {
        Err(IfError::ConflictingAddressMode) => {}
        other => panic!("expected conflicting-address-mode, got {other:?}"),
    }
    assert_eq!(doc, before);
}

#[test]
fn second_gateway_is_a_conflict() {
    let mut doc = NetplanYaml::parse("network:\n  ethernets:\n").unwrap();
    let with_gw = NicOutput::new(None, None, Some("10.0.0.1".to_string()), None);
    ops::set(&mut doc, "eth0", &with_gw).expect("first gateway is fine");
    let second = NicOutput::new(None, None, Some("10.0.0.2".to_string()), None);
    let before = doc.clone();
    match ops::set(&mut doc, "eth1", &second) {
        Err(IfError::GatewayConflict) => {}
        other => panic!("expected gateway-conflict, got {other:?}"),
    }
    assert_eq!(doc, before);
    // replacing the same interface's gateway stays allowed
    ops::set(&mut doc, "eth0", &second).expect("same interface may change its gateway");
}

#[test]
fn invalid_address_is_rejected_with_the_value() {
    let mut doc = simple_doc();
    let edit = NicOutput::new(Some(vec!["not-a-network".to_string()]), None, None, None);
    match ops::set(&mut doc, "eth0", &edit) {
        Err(IfError::InvalidAddress(v)) => assert_eq!(v, "not-a-network"),
        other => panic!("expected invalid-address, got {other:?}"),
    }
    // a bare address without a prefix length is not a network
    let edit = NicOutput::new(Some(vec!["10.0.0.1".to_string()]), None, None, None);
    assert!(matches!(
        ops::set(&mut doc, "eth0", &edit),
        Err(IfError::InvalidAddress(_))
    ));
    // a gateway with a prefix length is not a bare address
    let edit = NicOutput::new(None, None, Some("10.0.0.1/24".to_string()), None);
    assert!(matches!(
        ops::set(&mut doc, "eth0", &edit),
        Err(IfError::InvalidAddress(_))
    ));
    // nameservers must be bare addresses too
    let edit = NicOutput::new(None, None, None, Some(vec!["nope".to_string()]));
    assert!(matches!(
        ops::set(&mut doc, "eth0", &edit),
        Err(IfError::InvalidAddress(_))
    ));
}

#[test]
fn delete_requires_a_known_interface() {
    let mut doc = simple_doc();
    let edit = NicOutput::new(None, None, None, None);
    match ops::delete(&mut doc, "eth9", &edit) {
        Err(IfError::InterfaceNotFound) => {}
        other => panic!("expected interface-not-found, got {other:?}"),
    }
}

#[test]
fn delete_end_to_end_omits_cleared_keys() {
    // one file on disk; delete the address and the gateway; the committed
    // document keeps the interface entry but omits both keys
    let file = "network:\n  ethernets:\n    eth0:\n      addresses:\n        - 192.168.1.5/24\n      gateway4: 192.168.1.1\n".to_string();
    let mut doc = ops::load_netplan_yaml(&vec![file]).expect("file parses");
    let edit = NicOutput::new(
        Some(vec!["192.168.1.5/24".to_string()]),
        None,
        Some("192.168.1.1".to_string()),
        None,
    );
    ops::delete(&mut doc, "eth0", &edit).expect("interface exists");
    let files = vec!["01-netcfg.yaml".to_string()];
    let plan = ops::commit_plan(&doc, &files);
    assert_eq!(plan.primary, "01-netcfg.yaml");
    assert_eq!(plan.content, "network:\n  ethernets:\n    eth0:\n");
    assert!(plan.to_delete.is_empty());
}

#[test]
fn delete_clears_gateway_only_on_exact_match() {
    let mut doc = simple_doc();
    let edit = NicOutput::new(None, None, Some("192.168.1.254".to_string()), None);
    ops::delete(&mut doc, "eth0", &edit).expect("interface exists");
    // the gateway differs, so it stays
    assert!(doc.to_text().contains("gateway4: 192.168.1.1"));
}

#[test]
fn commit_is_idempotent_on_a_single_file() {
    let doc = simple_doc();
    let files = vec!["01-netcfg.yaml".to_string()];
    let plan = ops::commit_plan(&doc, &files);
    assert_eq!(plan.primary, "01-netcfg.yaml");
    assert!(plan.to_delete.is_empty());
    assert_eq!(plan.content, doc.to_text());
}

#[test]
fn commit_picks_first_file_and_deletes_the_rest() {
    let doc = simple_doc();
    let files = vec![
        "00-base.yaml".to_string(),
        "10-extra.yaml".to_string(),
        "20-more.yaml".to_string(),
    ];
    let plan = ops::commit_plan(&doc, &files);
    assert_eq!(plan.primary, "00-base.yaml");
    assert_eq!(plan.to_delete, vec!["10-extra.yaml".to_string(), "20-more.yaml".to_string()]);
}

#[test]
fn commit_on_empty_directory_uses_default_name() {
    let doc = simple_doc();
    let plan = ops::commit_plan(&doc, &Vec::new());
    assert_eq!(plan.primary, "01-netcfg.yaml");
    assert!(plan.to_delete.is_empty());
}

#[test]
fn get_projects_the_requested_interface() {
    let doc = simple_doc();
    let got = ops::get(&doc, &Some("eth0".to_string())).expect("present");
    assert_eq!(got.len(), 1);
    assert_eq!(got[0].0, "eth0");
    let expected = NicOutput::new(
        Some(vec!["192.168.1.5/24".to_string()]),
        None,
        Some("192.168.1.1".to_string()),
        None,
    );
    assert_eq!(got[0].1, expected);
    assert!(ops::get(&doc, &Some("eth7".to_string())).is_none());
    let all = ops::get(&doc, &None).expect("always produced");
    assert_eq!(all.len(), 1);
}

#[test]
fn view_round_trip_keeps_search_domains_empty() {
    let out = NicOutput::new(None, None, None, Some(vec!["1.1.1.1".to_string()]));
    let full = out.to();
    let back = NicOutput::from(&full);
    // the search-domain list comes back as empty, not invented
    assert_eq!(out, back);
    let full2 = back.to();
    assert_eq!(
        full2,
        Nic::new(
            None,
            None,
            None,
            Some(Nameservers::new(Some(vec!["1.1.1.1".to_string()]), Some(Vec::new()))),
            None
        )
    );
}

#[test]
fn interface_names_filter_by_prefix() {
    let names = vec!["eno1".to_string(), "lo".to_string(), "eno2".to_string()];
    let filtered = ops::get_interface_names(&names, &Some("en".to_string()));
    assert_eq!(filtered, vec!["eno1".to_string(), "eno2".to_string()]);
    let all = ops::get_interface_names(&names, &None);
    assert_eq!(all, names);
}

#[test]
fn file_names_sort_lexicographically() {
    let names = vec![
        "20-b.yaml".to_string(),
        "01-netcfg.yaml".to_string(),
        "10-a.yaml".to_string(),
    ];
    let sorted = ops::sort_names(names);
    assert_eq!(
        sorted,
        vec!["01-netcfg.yaml".to_string(), "10-a.yaml".to_string(), "20-b.yaml".to_string()]
    );
}

#[test]
fn init_checks_the_live_interfaces() {
    let mut doc = simple_doc();
    let live = vec!["eth0".to_string(), "lo".to_string()];
    match ops::init(&mut doc, "eth9", &live) {
        Err(IfError::InterfaceNotFound) => {}
        other => panic!("expected interface-not-found, got {other:?}"),
    }
    ops::init(&mut doc, "eth0", &live).expect("eth0 is live");
    assert_eq!(doc.to_text(), "network:\n  ethernets:\n    eth0:\n");
}

#[test]
fn config_patching_drops_and_appends() {
    let lines = vec![
        "driftfile /var/lib/ntp/drift".to_string(),
        "server time.a.example iburst".to_string(),
        "restrict default".to_string(),
        "server time.b.example iburst".to_string(),
    ];
    let additions = vec!["server time.c.example iburst".to_string()];
    let patched = hostcfg::admin::patch_config_lines(&lines, "server ", &additions);
    assert_eq!(
        patched,
        vec![
            "driftfile /var/lib/ntp/drift".to_string(),
            "restrict default".to_string(),
            "server time.c.example iburst".to_string(),
        ]
    );
}
