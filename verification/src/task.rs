//! Requests to, and responses from, the privileged helper process. Each
//! public operation builds a typed request value; the caller serializes it,
//! exchanges it over the helper's pipes, and hands the response line back to
//! be decoded: a JSON object holding either a success payload, carried as a
//! binary-safe text encoding of the typed result, or an error message.

use vstd::prelude::*;
use crate::model::{NicOutput, NicOutputV};
use crate::errors::IfError;

verus! {

/// The operation selector carried inside a request.
#[derive(Debug, Clone, PartialEq)]
pub enum SubCommand {
    Get,
    Init,
    List,
    Assign,
    SetOsVersion,
    SetProductVersion,
}

/// The management area a request addresses.
#[derive(Debug, Clone, PartialEq)]
pub enum Node {
    Hostname(SubCommand),
    Interface(SubCommand),
    PowerOff,
    Reboot,
    Syslog(SubCommand),
    Version(SubCommand),
}

/// The argument a request carries.
#[derive(Debug, Clone, PartialEq)]
pub enum RequestArg {
    /// No argument.
    OptText(Option<String>),
    /// One text argument.
    Text(String),
    /// A list of text arguments.
    TextList(Vec<String>),
    /// An interface name with its proposed settings.
    IfaceEdit(String, NicOutput),
}

/// One request to the privileged helper.
#[derive(Debug, Clone, PartialEq)]
pub struct NodeRequest {
    pub node: Node,
    pub arg: RequestArg,
}

/// The decoded response frame: a success payload or an error message.
#[derive(Debug, PartialEq)]
pub enum TaskResult {
    Success(String),
    Failure(String),
}

/// The request that sets the OS version.
pub fn set_os_version(ver: String) -> (r: NodeRequest)
    ensures
        r.node == Node::Version(SubCommand::SetOsVersion),
        r.arg matches RequestArg::Text(v) && v@ == ver@,
{
    NodeRequest { node: Node::Version(SubCommand::SetOsVersion), arg: RequestArg::Text(ver) }
}

/// The request that sets the product version.
pub fn set_product_version(ver: String) -> (r: NodeRequest)
    ensures
        r.node == Node::Version(SubCommand::SetProductVersion),
        r.arg matches RequestArg::Text(v) && v@ == ver@,
{
    NodeRequest { node: Node::Version(SubCommand::SetProductVersion), arg: RequestArg::Text(ver) }
}

/// The request that sets the hostname.
pub fn set_hostname(host: String) -> (r: NodeRequest)
    ensures
        r.node == Node::Hostname(SubCommand::Assign),
        r.arg matches RequestArg::Text(v) && v@ == host@,
{
    NodeRequest { node: Node::Hostname(SubCommand::Assign), arg: RequestArg::Text(host) }
}

/// The request that reads the syslog servers.
pub fn syslog_servers() -> (r: NodeRequest)
    ensures
        r.node == Node::Syslog(SubCommand::Get),
        r.arg == RequestArg::OptText(Option::<String>::None),
{
    NodeRequest { node: Node::Syslog(SubCommand::Get), arg: RequestArg::OptText(None) }
}

/// The request that sets the syslog servers.
pub fn set_syslog_servers(servers: Vec<String>) -> (r: NodeRequest)
    ensures
        r.node == Node::Syslog(SubCommand::Assign),
        r.arg matches RequestArg::TextList(v) && v.deep_view() == servers.deep_view(),
{
    NodeRequest { node: Node::Syslog(SubCommand::Assign), arg: RequestArg::TextList(servers) }
}

/// The request that resets the syslog servers.
pub fn init_syslog_servers() -> (r: NodeRequest)
    ensures
        r.node == Node::Syslog(SubCommand::Init),
        r.arg == RequestArg::OptText(Option::<String>::None),
{
    NodeRequest { node: Node::Syslog(SubCommand::Init), arg: RequestArg::OptText(None) }
}

/// The request that lists interface names; the helper filters to the fixed
/// wired-interface prefix.
pub fn list_of_interfaces() -> (r: NodeRequest)
    ensures
        r.node == Node::Interface(SubCommand::List),
        r.arg matches RequestArg::OptText(o) && o matches Some(s) && s@ == "en"@,
{
    let p = String::from_str("en");
    NodeRequest { node: Node::Interface(SubCommand::List), arg: RequestArg::OptText(Some(p)) }
}

/// The request that reads one interface's settings.
pub fn interface(dev: String) -> (r: NodeRequest)
    ensures
        r.node == Node::Interface(SubCommand::Get),
        r.arg matches RequestArg::OptText(o) && o matches Some(s) && s@ == dev@,
{
    NodeRequest { node: Node::Interface(SubCommand::Get), arg: RequestArg::OptText(Some(dev)) }
}

/// The request that reads every interface's settings.
pub fn interfaces() -> (r: NodeRequest)
    ensures
        r.node == Node::Interface(SubCommand::Get),
        r.arg == RequestArg::OptText(Option::<String>::None),
{
    NodeRequest { node: Node::Interface(SubCommand::Get), arg: RequestArg::OptText(None) }
}

/// The request that sets one interface's settings.
pub fn set_interface(
    dev: String,
    addresses: Option<Vec<String>>,
    dhcp4: Option<bool>,
    gateway4: Option<String>,
    nameservers: Option<Vec<String>>,
) -> (r: NodeRequest)
    ensures
        r.node == Node::Interface(SubCommand::Assign),
        r.arg matches RequestArg::IfaceEdit(d, e) && d@ == dev@ && e.deep_view() == (NicOutputV {
            addresses: addresses.deep_view(),
            dhcp4,
            gateway4: gateway4.deep_view(),
            nameservers: nameservers.deep_view(),
        }),
{
    let nic = NicOutput::new(addresses, dhcp4, gateway4, nameservers);
    NodeRequest { node: Node::Interface(SubCommand::Assign), arg: RequestArg::IfaceEdit(dev, nic) }
}

/// The request that reboots the host.
pub fn reboot() -> (r: NodeRequest)
    ensures
        r.node == Node::Reboot,
        r.arg == RequestArg::OptText(Option::<String>::None),
{
    NodeRequest { node: Node::Reboot, arg: RequestArg::OptText(None) }
}

/// The request that powers the host off.
pub fn power_off() -> (r: NodeRequest)
    ensures
        r.node == Node::PowerOff,
        r.arg == RequestArg::OptText(Option::<String>::None),
{
    NodeRequest { node: Node::PowerOff, arg: RequestArg::OptText(None) }
}

/// The string under a response object's success key, if the response text
/// is a JSON object holding one.
pub uninterp spec fn json_ok_field_of(s: Seq<char>) -> Option<Seq<char>>;

/// The string under a response object's error key, if the response text is
/// a JSON object holding one.
pub uninterp spec fn json_err_field_of(s: Seq<char>) -> Option<Seq<char>>;

/// Relies on `serde_json::from_str`, `Value::get` and `Value::as_str`: a
/// response line's success and error strings depend on its characters
/// alone.
#[verifier::external_body]
fn json_task_fields(s: &str) -> (r: (Option<String>, Option<String>))
    ensures
        r.0.deep_view() == json_ok_field_of(s@),
        r.1.deep_view() == json_err_field_of(s@),
{
    match serde_json::from_str::<serde_json::Value>(s) {
        Ok(v) => (
            v.get("Ok").and_then(serde_json::Value::as_str).map(str::to_owned),
            v.get("Err").and_then(serde_json::Value::as_str).map(str::to_owned),
        ),
        Err(_) => (None, None),
    }
}

/// The bytes a binary-safe text payload decodes to, if it is well-formed.
pub uninterp spec fn base64_decode_of(s: Seq<char>) -> Option<Seq<u8>>;

/// Relies on `base64::decode`: what a payload decodes to depends on its
/// characters alone.
#[verifier::external_body]
fn base64_decode_exec(s: &str) -> (r: Option<Vec<u8>>)
    ensures
        r.deep_view() == base64_decode_of(s@),
{
    base64::decode(s).ok()
}

/// The text a byte payload deserializes to, if it is a well-formed encoded
/// string.
pub uninterp spec fn bincode_string_of(b: Seq<u8>) -> Option<Seq<char>>;

/// Relies on `bincode::deserialize::<String>`: the decoded text depends on
/// the bytes alone.
#[verifier::external_body]
fn bincode_string_exec(b: &Vec<u8>) -> (r: Option<String>)
    ensures
        r.deep_view() == bincode_string_of(b@),
{
    bincode::deserialize::<String>(b).ok()
}

/// The text list a byte payload deserializes to, if it is a well-formed
/// encoded list.
pub uninterp spec fn bincode_string_list_of(b: Seq<u8>) -> Option<Seq<Seq<char>>>;

/// Relies on `bincode::deserialize::<Vec<String>>`: the decoded list
/// depends on the bytes alone.
#[verifier::external_body]
fn bincode_string_list_exec(b: &Vec<u8>) -> (r: Option<Vec<String>>)
    ensures
        r.deep_view() == bincode_string_list_of(b@),
{
    bincode::deserialize::<Vec<String>>(b).ok()
}

/// Decodes a response frame: a JSON object holding either a success payload
/// or an error message; anything else is a transport parse failure,
/// distinct from an application-level error.
pub fn parse_task_response(line: &str) -> (r: Result<TaskResult, IfError>)
    ensures
        match json_ok_field_of(line@) {
            Some(p) => r matches Ok(t) && t matches TaskResult::Success(s) && s@ == p,
            None => match json_err_field_of(line@) {
                Some(m) => r matches Ok(t) && t matches TaskResult::Failure(s) && s@ == m,
                None => r matches Err(e) && e matches IfError::TransportFailure(_),
            },
        },
{
    let (ok_f, err_f) = json_task_fields(line);
    match ok_f {
        Some(p) => Ok(TaskResult::Success(p)),
        None => match err_f {
            Some(m) => Ok(TaskResult::Failure(m)),
            None => Err(
                IfError::TransportFailure(String::from_str("response is not a task result")),
            ),
        },
    }
}

/// Decodes a success payload's binary-safe text encoding into its bytes;
/// a malformed payload is a transport failure.
pub fn task_payload(payload: &String) -> (r: Result<Vec<u8>, IfError>)
    ensures
        match base64_decode_of(payload@) {
            Some(b) => r matches Ok(v) && v@ == b,
            None => r matches Err(e) && e matches IfError::TransportFailure(_),
        },
{
    match base64_decode_exec(payload.as_str()) {
        Some(v) => Ok(v),
        None => Err(IfError::TransportFailure(String::from_str("payload is not valid base64"))),
    }
}

/// Decodes a payload's bytes as one text value.
pub fn decode_string(b: &Vec<u8>) -> (r: Result<String, IfError>)
    ensures
        match bincode_string_of(b@) {
            Some(s) => r matches Ok(v) && v@ == s,
            None => r matches Err(e) && e matches IfError::TransportFailure(_),
        },
{
    match bincode_string_exec(b) {
        Some(s) => Ok(s),
        None => Err(IfError::TransportFailure(String::from_str("payload is not an encoded string"))),
    }
}

/// Decodes a payload's bytes as a list of text values.
pub fn decode_string_list(b: &Vec<u8>) -> (r: Result<Vec<String>, IfError>)
    ensures
        match bincode_string_list_of(b@) {
            Some(s) => r matches Ok(v) && v.deep_view() == s,
            None => r matches Err(e) && e matches IfError::TransportFailure(_),
        },
{
    match bincode_string_list_exec(b) {
        Some(s) => Ok(s),
        None => Err(
            IfError::TransportFailure(String::from_str("payload is not an encoded string list")),
        ),
    }
}

} // verus!
