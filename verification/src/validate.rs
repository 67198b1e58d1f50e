//! The validator: pure checks of a proposed interface edit against the
//! currently merged document. Runs before any mutation; performs no I/O.

use vstd::prelude::*;
use crate::model::{NicOutput, NicOutputV, NicV, NetplanYaml, clone_string};
use crate::errors::IfError;

verus! {

/// Whether the characters form a valid IPv4 or IPv6 network (address plus
/// prefix length), exactly as `ipnet`'s parser accepts it.
pub uninterp spec fn parses_as_ip_net(s: Seq<char>) -> bool;

/// Whether the characters form a valid bare IPv4 or IPv6 address, exactly
/// as the standard library's address parser accepts it.
pub uninterp spec fn parses_as_ip_addr(s: Seq<char>) -> bool;

/// Relies on `ipnet::IpNet`'s `FromStr` impl: whether a string parses as an
/// IP network depends on its characters alone.
#[verifier::external_body]
fn is_ip_net(s: &str) -> (r: bool)
    ensures
        r == parses_as_ip_net(s@),
{
    s.parse::<ipnet::IpNet>().is_ok()
}

/// Relies on `core::net::IpAddr`'s `FromStr` impl: whether a string parses
/// as a bare IP address depends on its characters alone.
#[verifier::external_body]
fn is_ip_addr(s: &str) -> (r: bool)
    ensures
        r == parses_as_ip_addr(s@),
{
    s.parse::<core::net::IpAddr>().is_ok()
}

/// Validates one IPv4/IPv6 network string.
pub fn validate_ipnetworks(ipnetwork: &str) -> (r: Result<(), IfError>)
    ensures
        r is Ok <==> parses_as_ip_net(ipnetwork@),
        r is Err ==> (r matches Err(err) && err matches IfError::InvalidAddress(v) && v@
            == ipnetwork@),
{
    if is_ip_net(ipnetwork) {
        Ok(())
    } else {
        let v = ipnetwork.to_owned();
        assert(v@ == ipnetwork@);
        Err(IfError::InvalidAddress(v))
    }
}

/// Validates one bare IP address string.
pub fn validate_ipaddress(ipaddr: &str) -> (r: Result<(), IfError>)
    ensures
        r is Ok <==> parses_as_ip_addr(ipaddr@),
        r is Err ==> (r matches Err(err) && err matches IfError::InvalidAddress(v) && v@
            == ipaddr@),
{
    if is_ip_addr(ipaddr) {
        Ok(())
    } else {
        let v = ipaddr.to_owned();
        Err(IfError::InvalidAddress(v))
    }
}

/// The IP-network validity test, as a function value.
pub open spec fn ip_net_pred() -> spec_fn(Seq<char>) -> bool {
    |s: Seq<char>| parses_as_ip_net(s)
}

/// The IP-address validity test, as a function value.
pub open spec fn ip_addr_pred() -> spec_fn(Seq<char>) -> bool {
    |s: Seq<char>| parses_as_ip_addr(s)
}

/// The position of the first value failing `p`, or the length when all pass.
pub open spec fn first_failing(l: Seq<Seq<char>>, p: spec_fn(Seq<char>) -> bool) -> int
    decreases l.len(),
{
    if l.len() == 0 {
        0
    } else if !p(l[0]) {
        0
    } else {
        1 + first_failing(l.skip(1), p)
    }
}

proof fn lemma_first_failing(l: Seq<Seq<char>>, p: spec_fn(Seq<char>) -> bool, i: int)
    requires
        0 <= i < l.len(),
        forall|k: int| 0 <= k < i ==> p(l[k]),
        !p(l[i]),
    ensures
        first_failing(l, p) == i,
    decreases i,
{
    if i > 0 {
        lemma_first_failing(l.skip(1), p, i - 1);
        assert(forall|k: int| 0 <= k < i - 1 ==> l.skip(1)[k] == l[k + 1]);
    }
}

/// Every proposed address is a valid IP network.
pub open spec fn addrs_ok(e: NicOutputV) -> bool {
    match e.addresses {
        Some(l) => forall|i: int| 0 <= i < l.len() ==> parses_as_ip_net(#[trigger] l[i]),
        None => true,
    }
}

/// The proposed gateway, if any, is a valid bare IP address.
pub open spec fn gw_ok(e: NicOutputV) -> bool {
    match e.gateway4 {
        Some(g) => parses_as_ip_addr(g),
        None => true,
    }
}

/// Every proposed nameserver is a valid bare IP address.
pub open spec fn ns_ok(e: NicOutputV) -> bool {
    match e.nameservers {
        Some(l) => forall|i: int| 0 <= i < l.len() ==> parses_as_ip_addr(#[trigger] l[i]),
        None => true,
    }
}

/// A non-empty gateway is proposed while some other interface already owns
/// one: only one interface may own the default route.
pub open spec fn gw_conflict(
    eths: Seq<(Seq<char>, NicV)>,
    name: Seq<char>,
    e: NicOutputV,
) -> bool {
    e.gateway4 is Some && exists|k: int|
        0 <= k < eths.len() && (#[trigger] eths[k]).0 != name && eths[k].1.gateway4 is Some
}

/// DHCP is requested together with a static address or nameserver list:
/// the addressing modes are mutually exclusive.
pub open spec fn mode_conflict(e: NicOutputV) -> bool {
    e.dhcp4 == Some(true) && (e.addresses is Some || e.nameservers is Some)
}

/// A proposed edit passes every document-wide check.
pub open spec fn edit_valid(eths: Seq<(Seq<char>, NicV)>, name: Seq<char>, e: NicOutputV) -> bool {
    addrs_ok(e) && gw_ok(e) && !gw_conflict(eths, name, e) && ns_ok(e) && !mode_conflict(e)
}

/// Checks the proposed edit for interface `ifname` against the merged
/// document: address and gateway syntax, gateway uniqueness across the other
/// interfaces, nameserver syntax, and DHCP/static exclusivity, in that order.
pub fn validate_edit(doc: &NetplanYaml, ifname: &str, e: &NicOutput) -> (r: Result<(), IfError>)
    ensures
        r is Ok <==> edit_valid(doc.deep_view().ethernets, ifname@, e.deep_view()),
        !addrs_ok(e.deep_view()) ==> (r matches Err(err) && err matches IfError::InvalidAddress(v)
            && v@ == e.deep_view().addresses->Some_0[first_failing(
            e.deep_view().addresses->Some_0,
            ip_net_pred(),
        )]),
        addrs_ok(e.deep_view()) && !gw_ok(e.deep_view()) ==> (r matches Err(err) && err matches
            IfError::InvalidAddress(v) && v@ == e.deep_view().gateway4->Some_0),
        addrs_ok(e.deep_view()) && gw_ok(e.deep_view()) && gw_conflict(
            doc.deep_view().ethernets,
            ifname@,
            e.deep_view(),
        ) ==> r == Result::<(), IfError>::Err(IfError::GatewayConflict),
        addrs_ok(e.deep_view()) && gw_ok(e.deep_view()) && !gw_conflict(
            doc.deep_view().ethernets,
            ifname@,
            e.deep_view(),
        ) && !ns_ok(e.deep_view()) ==> (r matches Err(err) && err matches IfError::InvalidAddress(
            v,
        ) && v@ == e.deep_view().nameservers->Some_0[first_failing(
            e.deep_view().nameservers->Some_0,
            ip_addr_pred(),
        )]),
        addrs_ok(e.deep_view()) && gw_ok(e.deep_view()) && !gw_conflict(
            doc.deep_view().ethernets,
            ifname@,
            e.deep_view(),
        ) && ns_ok(e.deep_view()) && mode_conflict(e.deep_view()) ==> r == Result::<
            (),
            IfError,
        >::Err(IfError::ConflictingAddressMode),
{
    let ghost ev = e.deep_view();
    let ghost eths = doc.deep_view().ethernets;

    match &e.addresses {
        Some(addrs) => {
            let ghost l = ev.addresses->Some_0;
            let mut i: usize = 0;
            while i < addrs.len()
                invariant
                    i <= addrs.len(),
                    l == addrs.deep_view(),
                    ev == e.deep_view(),
                    ev.addresses == Some(l),
                    forall|k: int| 0 <= k < i ==> parses_as_ip_net(#[trigger] l[k]),
                decreases addrs.len() - i,
            {
                let okhere = is_ip_net(addrs[i].as_str());
                assert(addrs@[i as int]@ == l[i as int]);
                assert(okhere == parses_as_ip_net(l[i as int]));
                if !okhere {
                    proof {
                        lemma_first_failing(l, ip_net_pred(), i as int);
                        assert(!parses_as_ip_net(l[i as int]));
                        assert(!addrs_ok(ev)) by {
                            assert(ev.addresses->Some_0 == l);
                            if addrs_ok(ev) {
                                assert(parses_as_ip_net(l[i as int]));
                            }
                        }
                    }
                    return Err(IfError::InvalidAddress(clone_string(&addrs[i])));
                }
                i = i + 1;
            }
            assert(addrs_ok(ev));
        },
        None => {
            assert(addrs_ok(ev));
        },
    }

    match &e.gateway4 {
        Some(gw) => {
            if !is_ip_addr(gw.as_str()) {
                return Err(IfError::InvalidAddress(clone_string(gw)));
            }
            assert(gw_ok(ev));
            // only one interface may own the default route
            let ifs = &doc.network.ethernets;
            let mut k: usize = 0;
            while k < ifs.len()
                invariant
                    k <= ifs.len(),
                    eths == ifs.deep_view(),
                    eths == doc.deep_view().ethernets,
                    ev == e.deep_view(),
                    gw_ok(ev),
                    addrs_ok(ev),
                    ev.gateway4 is Some,
                    forall|j: int|
                        0 <= j < k ==> !((#[trigger] eths[j]).0 != ifname@
                            && eths[j].1.gateway4 is Some),
                decreases ifs.len() - k,
            {
                if !crate::text::str_eq(ifs[k].0.as_str(), ifname) && ifs[k].1.gateway4.is_some() {
                    assert(eths[k as int].0 != ifname@ && eths[k as int].1.gateway4 is Some);
                    return Err(IfError::GatewayConflict);
                }
                k = k + 1;
            }
            assert(!gw_conflict(eths, ifname@, ev));
        },
        None => {
            assert(gw_ok(ev) && !gw_conflict(eths, ifname@, ev));
        },
    }

    match &e.nameservers {
        Some(servers) => {
            let ghost l = ev.nameservers->Some_0;
            let mut i: usize = 0;
            while i < servers.len()
                invariant
                    i <= servers.len(),
                    l == servers.deep_view(),
                    ev == e.deep_view(),
                    ev.nameservers == Some(l),
                    eths == doc.deep_view().ethernets,
                    addrs_ok(ev),
                    gw_ok(ev),
                    !gw_conflict(eths, ifname@, ev),
                    forall|k: int| 0 <= k < i ==> parses_as_ip_addr(#[trigger] l[k]),
                decreases servers.len() - i,
            {
                let okhere = is_ip_addr(servers[i].as_str());
                assert(servers@[i as int]@ == l[i as int]);
                assert(okhere == parses_as_ip_addr(l[i as int]));
                if !okhere {
                    proof {
                        lemma_first_failing(l, ip_addr_pred(), i as int);
                        assert(!parses_as_ip_addr(l[i as int]));
                        assert(!ns_ok(ev)) by {
                            assert(ev.nameservers->Some_0 == l);
                            if ns_ok(ev) {
                                assert(parses_as_ip_addr(l[i as int]));
                            }
                        }
                    }
                    return Err(IfError::InvalidAddress(clone_string(&servers[i])));
                }
                i = i + 1;
            }
            assert(ns_ok(ev));
        },
        None => {
            assert(ns_ok(ev));
        },
    }

    let dhcp_on = match &e.dhcp4 {
        Some(b) => *b,
        None => false,
    };
    if dhcp_on && (e.addresses.is_some() || e.nameservers.is_some()) {
        assert(mode_conflict(ev));
        return Err(IfError::ConflictingAddressMode);
    }
    assert(!mode_conflict(ev));
    Ok(())
}

} // verus!
