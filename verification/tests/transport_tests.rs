use hostcfg::task::{
    self, Node, RequestArg, SubCommand, TaskResult, parse_task_response, task_payload,
    decode_string, decode_string_list,
};
use hostcfg::errors::IfError;

#[test]
fn request_builders_carry_their_arguments() {
    let r = task::set_os_version("1.2.3".to_string());
    assert_eq!(r.node, Node::Version(SubCommand::SetOsVersion));
    assert_eq!(r.arg, RequestArg::Text("1.2.3".to_string()));

    let r = task::set_hostname("box1".to_string());
    assert_eq!(r.node, Node::Hostname(SubCommand::Assign));
    assert_eq!(r.arg, RequestArg::Text("box1".to_string()));

    let r = task::set_product_version("9".to_string());
    assert_eq!(r.node, Node::Version(SubCommand::SetProductVersion));

    let r = task::syslog_servers();
    assert_eq!(r.node, Node::Syslog(SubCommand::Get));
    assert_eq!(r.arg, RequestArg::OptText(None));

    let r = task::set_syslog_servers(vec!["10.0.0.5".to_string()]);
    assert_eq!(r.arg, RequestArg::TextList(vec!["10.0.0.5".to_string()]));

    let r = task::init_syslog_servers();
    assert_eq!(r.node, Node::Syslog(SubCommand::Init));

    let r = task::list_of_interfaces();
    assert_eq!(r.node, Node::Interface(SubCommand::List));
    assert_eq!(r.arg, RequestArg::OptText(Some("en".to_string())));

    let r = task::interface("eno1".to_string());
    assert_eq!(r.arg, RequestArg::OptText(Some("eno1".to_string())));

    let r = task::interfaces();
    assert_eq!(r.node, Node::Interface(SubCommand::Get));
    assert_eq!(r.arg, RequestArg::OptText(None));

    let r = task::reboot();
    assert_eq!(r.node, Node::Reboot);
    let r = task::power_off();
    assert_eq!(r.node, Node::PowerOff);

    let r = task::set_interface(
        "eno3".to_string(),
        Some(vec!["192.168.0.205/24".to_string()]),
        None,
        Some("192.168.0.1".to_string()),
        Some(vec!["164.124.101.1".to_string()]),
    );
    assert_eq!(r.node, Node::Interface(SubCommand::Assign));
    match r.arg {
        RequestArg::IfaceEdit(dev, edit) => {
            assert_eq!(dev, "eno3");
            assert_eq!(
                edit,
                hostcfg::model::NicOutput::new(
                    Some(vec!["192.168.0.205/24".to_string()]),
                    None,
                    Some("192.168.0.1".to_string()),
                    Some(vec!["164.124.101.1".to_string()]),
                )
            );
        }
        other => panic!("expected an interface edit, got {other:?}"),
    }
}

#[test]
fn response_frames_are_told_apart() {
    match parse_task_response("{\"Ok\":\"cGF5bG9hZA==\"}") {
        Ok(TaskResult::Success(p)) => assert_eq!(p, "cGF5bG9hZA=="),
        other => panic!("expected a success frame, got {other:?}"),
    }
    match parse_task_response("{\"Err\":\"it broke\"}") {
        Ok(TaskResult::Failure(m)) => assert_eq!(m, "it broke"),
        other => panic!("expected a failure frame, got {other:?}"),
    }
    match parse_task_response("this is not json") {
        Err(IfError::TransportFailure(_)) => {}
        other => panic!("expected a transport failure, got {other:?}"),
    }
}

#[test]
fn payload_decodes_through_base64_and_bincode() {
    let encoded = bincode::serialize(&"hello".to_string()).unwrap();
    let wire = base64::encode(&encoded);
    let bytes = task_payload(&wire).expect("valid base64");
    assert_eq!(bytes, encoded);
    let text = decode_string(&bytes).expect("valid encoded string");
    assert_eq!(text, "hello");

    let list = vec!["a".to_string(), "b".to_string()];
    let encoded = bincode::serialize(&list).unwrap();
    let names = decode_string_list(&encoded).expect("valid encoded list");
    assert_eq!(names, list);

    match task_payload(&"!!!not base64!!!".to_string()) {
        Err(IfError::TransportFailure(_)) => {}
        other => panic!("expected a transport failure, got {other:?}"),
    }
    match decode_string(&vec![0xff, 0xff]) {
        Err(IfError::TransportFailure(_)) => {}
        other => panic!("expected a transport failure, got {other:?}"),
    }
}
