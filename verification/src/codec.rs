//! The textual codec for the document schema: a line-oriented, indented
//! format with a closed set of keys. The serializer omits every absent
//! field and every empty optional list; the parser is strict and rejects
//! anything outside the schema.

use vstd::prelude::*;
use crate::text::{
    dec_digits, dec_value, dec_value_acc, str_to_chars, chars_to_string, push_dec_digits,
};
use crate::model::{
    Nic, NicV, Nameservers, NameserversV, Bridge, BridgeV, Network, NetplanYaml, DocV,
    unique_names,
};
use crate::errors::IfError;

verus! {

/// The characters of the schema word `network`.
pub open spec fn kw_network() -> Seq<char> {
    seq!['n', 'e', 't', 'w', 'o', 'r', 'k']
}

/// Builds the schema word `network` as characters.
pub fn kwx_network() -> (r: Vec<char>)
    ensures
        r@ == kw_network(),
{
    let r: Vec<char> = vec!['n', 'e', 't', 'w', 'o', 'r', 'k'];
    assert(r@ =~= kw_network());
    r
}

/// The characters of the schema word `version`.
pub open spec fn kw_version() -> Seq<char> {
    seq!['v', 'e', 'r', 's', 'i', 'o', 'n']
}

/// Builds the schema word `version` as characters.
pub fn kwx_version() -> (r: Vec<char>)
    ensures
        r@ == kw_version(),
{
    let r: Vec<char> = vec!['v', 'e', 'r', 's', 'i', 'o', 'n'];
    assert(r@ =~= kw_version());
    r
}

/// The characters of the schema word `renderer`.
pub open spec fn kw_renderer() -> Seq<char> {
    seq!['r', 'e', 'n', 'd', 'e', 'r', 'e', 'r']
}

/// Builds the schema word `renderer` as characters.
pub fn kwx_renderer() -> (r: Vec<char>)
    ensures
        r@ == kw_renderer(),
{
    let r: Vec<char> = vec!['r', 'e', 'n', 'd', 'e', 'r', 'e', 'r'];
    assert(r@ =~= kw_renderer());
    r
}

/// The characters of the schema word `ethernets`.
pub open spec fn kw_ethernets() -> Seq<char> {
    seq!['e', 't', 'h', 'e', 'r', 'n', 'e', 't', 's']
}

/// Builds the schema word `ethernets` as characters.
pub fn kwx_ethernets() -> (r: Vec<char>)
    ensures
        r@ == kw_ethernets(),
{
    let r: Vec<char> = vec!['e', 't', 'h', 'e', 'r', 'n', 'e', 't', 's'];
    assert(r@ =~= kw_ethernets());
    r
}

/// The characters of the schema word `bridges`.
pub open spec fn kw_bridges() -> Seq<char> {
    seq!['b', 'r', 'i', 'd', 'g', 'e', 's']
}

/// Builds the schema word `bridges` as characters.
pub fn kwx_bridges() -> (r: Vec<char>)
    ensures
        r@ == kw_bridges(),
{
    let r: Vec<char> = vec!['b', 'r', 'i', 'd', 'g', 'e', 's'];
    assert(r@ =~= kw_bridges());
    r
}

/// The characters of the schema word `addresses`.
pub open spec fn kw_addresses() -> Seq<char> {
    seq!['a', 'd', 'd', 'r', 'e', 's', 's', 'e', 's']
}

/// Builds the schema word `addresses` as characters.
pub fn kwx_addresses() -> (r: Vec<char>)
    ensures
        r@ == kw_addresses(),
{
    let r: Vec<char> = vec!['a', 'd', 'd', 'r', 'e', 's', 's', 'e', 's'];
    assert(r@ =~= kw_addresses());
    r
}

/// The characters of the schema word `search`.
pub open spec fn kw_search() -> Seq<char> {
    seq!['s', 'e', 'a', 'r', 'c', 'h']
}

/// Builds the schema word `search` as characters.
pub fn kwx_search() -> (r: Vec<char>)
    ensures
        r@ == kw_search(),
{
    let r: Vec<char> = vec!['s', 'e', 'a', 'r', 'c', 'h'];
    assert(r@ =~= kw_search());
    r
}

/// The characters of the schema word `dhcp4`.
pub open spec fn kw_dhcp4() -> Seq<char> {
    seq!['d', 'h', 'c', 'p', '4']
}

/// Builds the schema word `dhcp4` as characters.
pub fn kwx_dhcp4() -> (r: Vec<char>)
    ensures
        r@ == kw_dhcp4(),
{
    let r: Vec<char> = vec!['d', 'h', 'c', 'p', '4'];
    assert(r@ =~= kw_dhcp4());
    r
}

/// The characters of the schema word `gateway4`.
pub open spec fn kw_gateway4() -> Seq<char> {
    seq!['g', 'a', 't', 'e', 'w', 'a', 'y', '4']
}

/// Builds the schema word `gateway4` as characters.
pub fn kwx_gateway4() -> (r: Vec<char>)
    ensures
        r@ == kw_gateway4(),
{
    let r: Vec<char> = vec!['g', 'a', 't', 'e', 'w', 'a', 'y', '4'];
    assert(r@ =~= kw_gateway4());
    r
}

/// The characters of the schema word `nameservers`.
pub open spec fn kw_nameservers() -> Seq<char> {
    seq!['n', 'a', 'm', 'e', 's', 'e', 'r', 'v', 'e', 'r', 's']
}

/// Builds the schema word `nameservers` as characters.
pub fn kwx_nameservers() -> (r: Vec<char>)
    ensures
        r@ == kw_nameservers(),
{
    let r: Vec<char> = vec!['n', 'a', 'm', 'e', 's', 'e', 'r', 'v', 'e', 'r', 's'];
    assert(r@ =~= kw_nameservers());
    r
}

/// The characters of the schema word `optional`.
pub open spec fn kw_optional() -> Seq<char> {
    seq!['o', 'p', 't', 'i', 'o', 'n', 'a', 'l']
}

/// Builds the schema word `optional` as characters.
pub fn kwx_optional() -> (r: Vec<char>)
    ensures
        r@ == kw_optional(),
{
    let r: Vec<char> = vec!['o', 'p', 't', 'i', 'o', 'n', 'a', 'l'];
    assert(r@ =~= kw_optional());
    r
}

/// The characters of the schema word `interfaces`.
pub open spec fn kw_interfaces() -> Seq<char> {
    seq!['i', 'n', 't', 'e', 'r', 'f', 'a', 'c', 'e', 's']
}

/// Builds the schema word `interfaces` as characters.
pub fn kwx_interfaces() -> (r: Vec<char>)
    ensures
        r@ == kw_interfaces(),
{
    let r: Vec<char> = vec!['i', 'n', 't', 'e', 'r', 'f', 'a', 'c', 'e', 's'];
    assert(r@ =~= kw_interfaces());
    r
}

/// The characters of the schema word `true`.
pub open spec fn kw_true() -> Seq<char> {
    seq!['t', 'r', 'u', 'e']
}

/// Builds the schema word `true` as characters.
pub fn kwx_true() -> (r: Vec<char>)
    ensures
        r@ == kw_true(),
{
    let r: Vec<char> = vec!['t', 'r', 'u', 'e'];
    assert(r@ =~= kw_true());
    r
}

/// The characters of the schema word `false`.
pub open spec fn kw_false() -> Seq<char> {
    seq!['f', 'a', 'l', 's', 'e']
}

/// Builds the schema word `false` as characters.
pub fn kwx_false() -> (r: Vec<char>)
    ensures
        r@ == kw_false(),
{
    let r: Vec<char> = vec!['f', 'a', 'l', 's', 'e'];
    assert(r@ =~= kw_false());
    r
}

/// `n` space characters.
pub open spec fn spaces(n: nat) -> Seq<char>
    decreases n,
{
    if n == 0 {
        Seq::empty()
    } else {
        spaces((n - 1) as nat) + seq![' ']
    }
}

/// Every character of `spaces(n)` is a space, and there are `n` of them.
pub proof fn lemma_spaces(n: nat)
    ensures
        spaces(n).len() == n,
        forall|k: int| 0 <= k < n ==> spaces(n)[k] == ' ',
    decreases n,
{
    if n > 0 {
        lemma_spaces((n - 1) as nat);
    }
}

/// A line holding a block key: indent, key, colon.
pub open spec fn key_line(ind: nat, key: Seq<char>) -> Seq<char> {
    spaces(ind) + key + seq![':']
}

/// A line holding a key and its value: indent, key, colon, space, value.
pub open spec fn kv_line(ind: nat, key: Seq<char>, val: Seq<char>) -> Seq<char> {
    spaces(ind) + key + seq![':', ' '] + val
}

/// A line holding one list item: indent, dash, space, value.
pub open spec fn item_line(ind: nat, val: Seq<char>) -> Seq<char> {
    spaces(ind) + seq!['-', ' '] + val
}

/// The value of a key/value line with the given indent and key, if the line
/// has that exact shape.
pub open spec fn parse_kv(l: Seq<char>, ind: nat, key: Seq<char>) -> Option<Seq<char>> {
    let pre = spaces(ind) + key + seq![':', ' '];
    if l.len() >= pre.len() && l.subrange(0, pre.len() as int) == pre {
        Some(l.skip(pre.len() as int))
    } else {
        None
    }
}

/// The value of an item line with the given indent, if the line has that
/// exact shape.
pub open spec fn parse_item(l: Seq<char>, ind: nat) -> Option<Seq<char>> {
    let pre = spaces(ind) + seq!['-', ' '];
    if l.len() >= pre.len() && l.subrange(0, pre.len() as int) == pre {
        Some(l.skip(pre.len() as int))
    } else {
        None
    }
}

/// The name of a mapping-entry line at the given indent: the text between
/// the indent and a final colon, holding no colon, not starting with a
/// space, and non-empty.
pub open spec fn parse_name_line(l: Seq<char>, ind: nat) -> Option<Seq<char>> {
    if l.len() >= ind + 2 && l.subrange(0, ind as int) == spaces(ind) && l[l.len() - 1] == ':'
        && l[ind as int] != ' ' && (forall|k: int| ind <= k < l.len() - 1 ==> l[k] != ':') {
        Some(l.subrange(ind as int, l.len() - 1))
    } else {
        None
    }
}

/// A name that survives the trip through a mapping-entry line: non-empty,
/// no newline, no colon, not starting with a space.
pub open spec fn valid_name(n: Seq<char>) -> bool {
    n.len() > 0 && n[0] != ' ' && forall|k: int| 0 <= k < n.len() ==> n[k] != ':' && n[k] != '\n'
}

/// A value that survives the trip through a key/value or item line: it may
/// hold anything but a newline.
pub open spec fn valid_value(v: Seq<char>) -> bool {
    forall|k: int| 0 <= k < v.len() ==> v[k] != '\n'
}

/// The lines joined, each terminated by a newline.
pub open spec fn unlines(ls: Seq<Seq<char>>) -> Seq<char>
    decreases ls.len(),
{
    if ls.len() == 0 {
        Seq::empty()
    } else {
        ls[0] + seq!['\n'] + unlines(ls.skip(1))
    }
}

/// Joining distributes over concatenation of line lists.
pub proof fn lemma_unlines_app(a: Seq<Seq<char>>, b: Seq<Seq<char>>)
    ensures
        unlines(a + b) == unlines(a) + unlines(b),
    decreases a.len(),
{
    if a.len() == 0 {
        assert(a + b =~= b);
        assert(unlines(a) + unlines(b) =~= unlines(b));
    } else {
        lemma_unlines_app(a.skip(1), b);
        assert((a + b).skip(1) =~= a.skip(1) + b);
        assert(unlines(a + b) == (a + b)[0] + seq!['\n'] + unlines(a.skip(1) + b));
        assert((a + b)[0] == a[0]);
        assert(a[0] + seq!['\n'] + (unlines(a.skip(1)) + unlines(b)) =~= (a[0] + seq!['\n']
            + unlines(a.skip(1))) + unlines(b));
    }
}

/// The text split at newlines, if it is a whole number of terminated lines.
pub open spec fn to_lines(s: Seq<char>) -> Option<Seq<Seq<char>>>
    decreases s.len(),
{
    if s.len() == 0 {
        Some(Seq::empty())
    } else if !s.contains('\n') {
        None
    } else {
        let k = first_nl(s);
        if 0 <= k < s.len() {
            match to_lines(s.skip(k + 1)) {
                Some(rest) => Some(seq![s.subrange(0, k)] + rest),
                None => None,
            }
        } else {
            None
        }
    }
}

/// The position of the first newline.
pub open spec fn first_nl(s: Seq<char>) -> int
    decreases s.len(),
{
    if s.len() == 0 {
        0
    } else if s[0] == '\n' {
        0
    } else {
        1 + first_nl(s.skip(1))
    }
}

/// `first_nl` names the first newline when one exists.
pub proof fn lemma_first_nl(s: Seq<char>)
    requires
        s.contains('\n'),
    ensures
        0 <= first_nl(s) < s.len(),
        s[first_nl(s)] == '\n',
        forall|k: int| 0 <= k < first_nl(s) ==> s[k] != '\n',
    decreases s.len(),
{
    if s.len() > 0 && s[0] != '\n' {
        assert(s.skip(1).contains('\n')) by {
            let i = choose|i: int| 0 <= i < s.len() && s[i] == '\n';
            assert(s.skip(1)[i - 1] == '\n');
        }
        lemma_first_nl(s.skip(1));
        assert(forall|k: int| 1 <= k < first_nl(s) ==> s[k] == s.skip(1)[k - 1]);
    }
}

/// Splitting after joining gives back the lines, when none holds a newline.
pub proof fn lemma_to_lines_unlines(ls: Seq<Seq<char>>)
    requires
        forall|i: int| 0 <= i < ls.len() ==> !(#[trigger] ls[i]).contains('\n'),
    ensures
        to_lines(unlines(ls)) == Some(ls),
    decreases ls.len(),
{
    if ls.len() == 0 {
    } else {
        let s = unlines(ls);
        let l0 = ls[0];
        assert(s == l0 + seq!['\n'] + unlines(ls.skip(1)));
        assert(s[l0.len() as int] == '\n');
        assert(s.contains('\n'));
        assert forall|k: int| 0 <= k < l0.len() implies s[k] != '\n' by {
            assert(s[k] == l0[k]);
            assert(!l0.contains('\n'));
            if l0[k] == '\n' {
                assert(l0.contains('\n'));
            }
        }
        assert(first_nl(s) == l0.len()) by {
            lemma_first_nl(s);
            let f = first_nl(s);
            if f < l0.len() {
                assert(s[f] != '\n');
            }
            if f > l0.len() {
                assert(s[l0.len() as int] != '\n');
            }
        }
        assert(s.subrange(0, l0.len() as int) =~= l0);
        assert(s.skip(l0.len() as int + 1) =~= unlines(ls.skip(1)));
        assert(forall|i: int| 0 <= i < ls.skip(1).len() ==> ls.skip(1)[i] == ls[i + 1]);
        lemma_to_lines_unlines(ls.skip(1));
        assert(seq![l0] + ls.skip(1) =~= ls);
    }
}


/// Joining a single line appends just its newline.
pub proof fn lemma_unlines_single(l: Seq<char>)
    ensures
        unlines(seq![l]) == l + seq!['\n'],
{
    assert(seq![l].skip(1) =~= Seq::<Seq<char>>::empty());
    assert(unlines(seq![l].skip(1)) == Seq::<char>::empty());
    assert(unlines(seq![l]) =~= l + seq!['\n']);
}

/// The characters of a boolean value.
pub open spec fn bool_chars(b: bool) -> Seq<char> {
    if b {
        kw_true()
    } else {
        kw_false()
    }
}

/// One item line per value.
pub open spec fn item_lines(ind: nat, v: Seq<Seq<char>>) -> Seq<Seq<char>>
    decreases v.len(),
{
    if v.len() == 0 {
        Seq::empty()
    } else {
        seq![item_line(ind, v[0])] + item_lines(ind, v.skip(1))
    }
}

/// The lines of an optional list field: a key line and its items, or
/// nothing when the list is absent or empty.
pub open spec fn opt_list_lines(
    kind: nat,
    key: Seq<char>,
    iind: nat,
    l: Option<Seq<Seq<char>>>,
) -> Seq<Seq<char>> {
    match l {
        Some(v) => if v.len() == 0 {
            Seq::empty()
        } else {
            seq![key_line(kind, key)] + item_lines(iind, v)
        },
        None => Seq::empty(),
    }
}

/// The lines inside a nameserver block: the two role lists.
pub open spec fn ns_block_lines(ns: NameserversV) -> Seq<Seq<char>> {
    opt_list_lines(8, kw_addresses(), 10, ns.addresses) + opt_list_lines(
        8,
        kw_search(),
        10,
        ns.search,
    )
}

/// The lines of one interface's settings; every absent field is omitted.
pub open spec fn nic_lines(n: NicV) -> Seq<Seq<char>> {
    opt_list_lines(6, kw_addresses(), 8, n.addresses) + (match n.dhcp4 {
        Some(b) => seq![kv_line(6, kw_dhcp4(), bool_chars(b))],
        None => Seq::empty(),
    }) + (match n.gateway4 {
        Some(g) => seq![kv_line(6, kw_gateway4(), g)],
        None => Seq::empty(),
    }) + (match n.nameservers {
        Some(ns) => if ns_block_lines(ns).len() == 0 {
            Seq::empty()
        } else {
            seq![key_line(6, kw_nameservers())] + ns_block_lines(ns)
        },
        None => Seq::empty(),
    }) + (match n.optional {
        Some(b) => seq![kv_line(6, kw_optional(), bool_chars(b))],
        None => Seq::empty(),
    })
}

/// The lines of the interface mapping, one entry after another.
pub open spec fn eth_lines(s: Seq<(Seq<char>, NicV)>) -> Seq<Seq<char>>
    decreases s.len(),
{
    if s.len() == 0 {
        Seq::empty()
    } else {
        seq![key_line(4, s[0].0)] + nic_lines(s[0].1) + eth_lines(s.skip(1))
    }
}

/// The lines of one bridge's settings; member and address lists are always
/// written, even empty, as is the nameserver block's key.
pub open spec fn bridge_body_lines(b: BridgeV) -> Seq<Seq<char>> {
    seq![key_line(6, kw_interfaces())] + item_lines(8, b.interfaces) + seq![
        key_line(6, kw_addresses()),
    ] + item_lines(8, b.addresses) + (match b.gateway4 {
        Some(g) => seq![kv_line(6, kw_gateway4(), g)],
        None => Seq::empty(),
    }) + seq![key_line(6, kw_nameservers())] + ns_block_lines(b.nameservers)
}

/// The lines of the bridge mapping.
pub open spec fn bridge_lines(s: Seq<(Seq<char>, BridgeV)>) -> Seq<Seq<char>>
    decreases s.len(),
{
    if s.len() == 0 {
        Seq::empty()
    } else {
        seq![key_line(4, s[0].0)] + bridge_body_lines(s[0].1) + bridge_lines(s.skip(1))
    }
}

/// The lines of a whole document.
pub open spec fn doc_lines(d: DocV) -> Seq<Seq<char>> {
    seq![key_line(0, kw_network())] + (match d.version {
        Some(n) => seq![kv_line(2, kw_version(), dec_digits(n as nat))],
        None => Seq::empty(),
    }) + (match d.renderer {
        Some(r) => seq![kv_line(2, kw_renderer(), r)],
        None => Seq::empty(),
    }) + seq![key_line(2, kw_ethernets())] + eth_lines(d.ethernets) + (match d.bridges {
        Some(bs) => seq![key_line(2, kw_bridges())] + bridge_lines(bs),
        None => Seq::empty(),
    })
}

/// The serialized text of a document.
pub open spec fn ser_doc(d: DocV) -> Seq<char> {
    unlines(doc_lines(d))
}

/// Reads consecutive item lines at the given indent, returning the values
/// and the index of the first line that is not such an item.
pub open spec fn p_items(ls: Seq<Seq<char>>, i: int, ind: nat) -> (Seq<Seq<char>>, int)
    decreases ls.len() - i,
{
    if 0 <= i < ls.len() && parse_item(ls[i], ind) is Some {
        let r = p_items(ls, i + 1, ind);
        (seq![parse_item(ls[i], ind)->Some_0] + r.0, r.1)
    } else {
        (Seq::empty(), i)
    }
}

/// Reads an optional list field: key line plus at least one item, or
/// nothing. A key line with no items is malformed.
pub open spec fn p_opt_list(
    ls: Seq<Seq<char>>,
    i: int,
    kind: nat,
    key: Seq<char>,
    iind: nat,
) -> Option<(Option<Seq<Seq<char>>>, int)> {
    if 0 <= i < ls.len() && ls[i] == key_line(kind, key) {
        let r = p_items(ls, i + 1, iind);
        if r.0.len() == 0 {
            None
        } else {
            Some((Some(r.0), r.1))
        }
    } else {
        Some((None, i))
    }
}

/// Reads a required list field: key line plus zero or more items.
pub open spec fn p_req_list(
    ls: Seq<Seq<char>>,
    i: int,
    kind: nat,
    key: Seq<char>,
    iind: nat,
) -> Option<(Seq<Seq<char>>, int)> {
    if 0 <= i < ls.len() && ls[i] == key_line(kind, key) {
        Some(p_items(ls, i + 1, iind))
    } else {
        None
    }
}

/// Reads an optional key/value line.
pub open spec fn p_opt_kv(ls: Seq<Seq<char>>, i: int, ind: nat, key: Seq<char>) -> (
    Option<Seq<char>>,
    int,
) {
    if 0 <= i < ls.len() && parse_kv(ls[i], ind, key) is Some {
        (parse_kv(ls[i], ind, key), i + 1)
    } else {
        (None, i)
    }
}

/// Reads a boolean value.
pub open spec fn p_bool(v: Seq<char>) -> Option<bool> {
    if v == kw_true() {
        Some(true)
    } else if v == kw_false() {
        Some(false)
    } else {
        None
    }
}

/// Reads the two role lists of a nameserver block.
pub open spec fn p_ns_block(ls: Seq<Seq<char>>, i: int) -> Option<(NameserversV, int)> {
    match p_opt_list(ls, i, 8, kw_addresses(), 10) {
        Some((a, i1)) => match p_opt_list(ls, i1, 8, kw_search(), 10) {
            Some((srch, i2)) => Some((NameserversV { addresses: a, search: srch }, i2)),
            None => None,
        },
        None => None,
    }
}

/// Reads one interface's settings: its optional fields, in canonical order.
pub open spec fn p_nic(ls: Seq<Seq<char>>, i: int) -> Option<(NicV, int)> {
    match p_opt_list(ls, i, 6, kw_addresses(), 8) {
        Some((addrs, i1)) => {
            let (dv, i2) = p_opt_kv(ls, i1, 6, kw_dhcp4());
            let dhcp_ok = match dv {
                Some(v) => p_bool(v) is Some,
                None => true,
            };
            if !dhcp_ok {
                None
            } else {
                let dhcp4 = match dv {
                    Some(v) => Some(p_bool(v)->Some_0),
                    None => None,
                };
                let (gw, i3) = p_opt_kv(ls, i2, 6, kw_gateway4());
                let ns_here = 0 <= i3 < ls.len() && ls[i3] == key_line(6, kw_nameservers());
                if ns_here {
                    match p_ns_block(ls, i3 + 1) {
                        Some((ns, i4)) => {
                            if ns.addresses is None && ns.search is None {
                                None
                            } else {
                                let (ov, i5) = p_opt_kv(ls, i4, 6, kw_optional());
                                let opt_ok = match ov {
                                    Some(v) => p_bool(v) is Some,
                                    None => true,
                                };
                                if !opt_ok {
                                    None
                                } else {
                                    let optional = match ov {
                                        Some(v) => Some(p_bool(v)->Some_0),
                                        None => None,
                                    };
                                    Some(
                                        (
                                            NicV {
                                                addresses: addrs,
                                                dhcp4,
                                                gateway4: gw,
                                                nameservers: Some(ns),
                                                optional,
                                            },
                                            i5,
                                        ),
                                    )
                                }
                            }
                        },
                        None => None,
                    }
                } else {
                    let (ov, i5) = p_opt_kv(ls, i3, 6, kw_optional());
                    let opt_ok = match ov {
                        Some(v) => p_bool(v) is Some,
                        None => true,
                    };
                    if !opt_ok {
                        None
                    } else {
                        let optional = match ov {
                            Some(v) => Some(p_bool(v)->Some_0),
                            None => None,
                        };
                        Some(
                            (
                                NicV {
                                    addresses: addrs,
                                    dhcp4,
                                    gateway4: gw,
                                    nameservers: None,
                                    optional,
                                },
                                i5,
                            ),
                        )
                    }
                }
            }
        },
        None => None,
    }
}

/// Reads the interface mapping: entries while a name line is next.
pub open spec fn p_eths(ls: Seq<Seq<char>>, i: int) -> Option<(Seq<(Seq<char>, NicV)>, int)>
    decreases ls.len() - i,
{
    if 0 <= i < ls.len() && parse_name_line(ls[i], 4) is Some {
        let name = parse_name_line(ls[i], 4)->Some_0;
        match p_nic(ls, i + 1) {
            Some((nic, j)) => {
                if i + 1 <= j <= ls.len() {
                    match p_eths(ls, j) {
                        Some((rest, k)) => Some((seq![(name, nic)] + rest, k)),
                        None => None,
                    }
                } else {
                    None
                }
            },
            None => None,
        }
    } else {
        Some((Seq::empty(), i))
    }
}

/// Reads one bridge's settings.
pub open spec fn p_bridge(ls: Seq<Seq<char>>, i: int) -> Option<(BridgeV, int)> {
    match p_req_list(ls, i, 6, kw_interfaces(), 8) {
        Some((ifs, i1)) => match p_req_list(ls, i1, 6, kw_addresses(), 8) {
            Some((addrs, i2)) => {
                let (gw, i3) = p_opt_kv(ls, i2, 6, kw_gateway4());
                if 0 <= i3 < ls.len() && ls[i3] == key_line(6, kw_nameservers()) {
                    match p_ns_block(ls, i3 + 1) {
                        Some((ns, i4)) => Some(
                            (
                                BridgeV {
                                    interfaces: ifs,
                                    addresses: addrs,
                                    gateway4: gw,
                                    nameservers: ns,
                                },
                                i4,
                            ),
                        ),
                        None => None,
                    }
                } else {
                    None
                }
            },
            None => None,
        },
        None => None,
    }
}

/// Reads the bridge mapping: entries while a name line is next.
pub open spec fn p_bridges(ls: Seq<Seq<char>>, i: int) -> Option<(Seq<(Seq<char>, BridgeV)>, int)>
    decreases ls.len() - i,
{
    if 0 <= i < ls.len() && parse_name_line(ls[i], 4) is Some {
        let name = parse_name_line(ls[i], 4)->Some_0;
        match p_bridge(ls, i + 1) {
            Some((b, j)) => {
                if i + 1 <= j <= ls.len() {
                    match p_bridges(ls, j) {
                        Some((rest, k)) => Some((seq![(name, b)] + rest, k)),
                        None => None,
                    }
                } else {
                    None
                }
            },
            None => None,
        }
    } else {
        Some((Seq::empty(), i))
    }
}

/// Reads a whole document from its lines: the `network` header, the
/// optional scalars, the interface mapping, and the optional bridge
/// mapping, with nothing left over and no duplicate names.
pub open spec fn parse_lines(ls: Seq<Seq<char>>) -> Option<DocV> {
    if ls.len() == 0 || ls[0] != key_line(0, kw_network()) {
        None
    } else {
        let (vv, i1) = p_opt_kv(ls, 1, 2, kw_version());
        let version_ok = match vv {
            Some(v) => dec_value(v) is Some && dec_value(v)->Some_0 <= u32::MAX,
            None => true,
        };
        if !version_ok {
            None
        } else {
            let version = match vv {
                Some(v) => Some(dec_value(v)->Some_0 as u32),
                None => None,
            };
            let (renderer, i2) = p_opt_kv(ls, i1, 2, kw_renderer());
            if !(0 <= i2 < ls.len() && ls[i2] == key_line(2, kw_ethernets())) {
                None
            } else {
                match p_eths(ls, i2 + 1) {
                    Some((eths, i3)) => {
                        if !unique_names(eths) {
                            None
                        } else if 0 <= i3 < ls.len() && ls[i3] == key_line(2, kw_bridges()) {
                            match p_bridges(ls, i3 + 1) {
                                Some((bs, i4)) => {
                                    if !unique_names(bs) || i4 != ls.len() {
                                        None
                                    } else {
                                        Some(
                                            DocV {
                                                version,
                                                renderer,
                                                ethernets: eths,
                                                bridges: Some(bs),
                                            },
                                        )
                                    }
                                },
                                None => None,
                            }
                        } else if i3 != ls.len() {
                            None
                        } else {
                            Some(DocV { version, renderer, ethernets: eths, bridges: None })
                        }
                    },
                    None => None,
                }
            }
        }
    }
}

/// Reads a whole document from text.
pub open spec fn parse_doc_spec(s: Seq<char>) -> Option<DocV> {
    match to_lines(s) {
        Some(ls) => parse_lines(ls),
        None => None,
    }
}

/// Appends the characters of `v`.
fn push_chars(out: &mut Vec<char>, v: &Vec<char>)
    ensures
        final(out)@ == old(out)@ + v@,
{
    let ghost orig = out@;
    let mut i: usize = 0;
    while i < v.len()
        invariant
            i <= v.len(),
            out@ =~= orig + v@.subrange(0, i as int),
        decreases v.len() - i,
    {
        out.push(v[i]);
        i = i + 1;
        assert(out@ =~= orig + v@.subrange(0, i as int));
    }
    assert(out@ =~= orig + v@);
}

/// Appends `n` spaces.
fn push_spaces(out: &mut Vec<char>, n: usize)
    ensures
        final(out)@ == old(out)@ + spaces(n as nat),
{
    let ghost orig = out@;
    let mut i: usize = 0;
    while i < n
        invariant
            i <= n,
            out@ =~= orig + spaces(i as nat),
        decreases n - i,
    {
        out.push(' ');
        i = i + 1;
        assert(out@ =~= orig + spaces(i as nat));
    }
}

/// Appends a block-key line and its newline.
fn push_key_line(out: &mut Vec<char>, ind: usize, key: &Vec<char>)
    ensures
        final(out)@ == old(out)@ + key_line(ind as nat, key@) + seq!['\n'],
{
    push_spaces(out, ind);
    push_chars(out, key);
    out.push(':');
    out.push('\n');
    assert(out@ =~= old(out)@ + key_line(ind as nat, key@) + seq!['\n']);
}

/// Appends a key/value line and its newline.
fn push_kv_line(out: &mut Vec<char>, ind: usize, key: &Vec<char>, val: &Vec<char>)
    ensures
        final(out)@ == old(out)@ + kv_line(ind as nat, key@, val@) + seq!['\n'],
{
    push_spaces(out, ind);
    push_chars(out, key);
    out.push(':');
    out.push(' ');
    push_chars(out, val);
    out.push('\n');
    assert(out@ =~= old(out)@ + kv_line(ind as nat, key@, val@) + seq!['\n']);
}

/// Appends an item line and its newline.
fn push_item_line(out: &mut Vec<char>, ind: usize, val: &Vec<char>)
    ensures
        final(out)@ == old(out)@ + item_line(ind as nat, val@) + seq!['\n'],
{
    push_spaces(out, ind);
    out.push('-');
    out.push(' ');
    push_chars(out, val);
    out.push('\n');
    assert(out@ =~= old(out)@ + item_line(ind as nat, val@) + seq!['\n']);
}

/// Appends a boolean value line.
fn push_bool_kv(out: &mut Vec<char>, ind: usize, key: &Vec<char>, b: bool)
    ensures
        final(out)@ == old(out)@ + kv_line(ind as nat, key@, bool_chars(b)) + seq!['\n'],
{
    let val = if b {
        kwx_true()
    } else {
        kwx_false()
    };
    push_kv_line(out, ind, key, &val);
}

/// Appends the item lines of the values from position `idx` on.
fn ser_items(out: &mut Vec<char>, ind: usize, v: &Vec<String>, idx: usize)
    requires
        idx <= v.len(),
    ensures
        final(out)@ == old(out)@ + unlines(item_lines(ind as nat, v.deep_view().skip(idx as int))),
    decreases v.len() - idx,
{
    let ghost tail = v.deep_view().skip(idx as int);
    if idx == v.len() {
        assert(tail.len() == 0);
        assert(out@ =~= out@ + unlines(item_lines(ind as nat, tail)));
        return;
    }
    let cv = str_to_chars(v[idx].as_str());
    assert(cv@ == tail[0]);
    push_item_line(out, ind, &cv);
    ser_items(out, ind, v, idx + 1);
    proof {
        assert(v.deep_view().skip(idx as int + 1) =~= tail.skip(1));
        assert(item_lines(ind as nat, tail) == seq![item_line(ind as nat, tail[0])] + item_lines(
            ind as nat,
            tail.skip(1),
        ));
        lemma_unlines_app(
            seq![item_line(ind as nat, tail[0])],
            item_lines(ind as nat, tail.skip(1)),
        );
        lemma_unlines_single(item_line(ind as nat, tail[0]));
        assert(final(out)@ =~= old(out)@ + unlines(item_lines(ind as nat, tail)));
    }
}

/// Appends an optional list field: nothing when absent or empty.
fn ser_opt_list(
    out: &mut Vec<char>,
    kind: usize,
    key: &Vec<char>,
    iind: usize,
    l: &Option<Vec<String>>,
)
    ensures
        final(out)@ == old(out)@ + unlines(
            opt_list_lines(kind as nat, key@, iind as nat, l.deep_view()),
        ),
{
    match l {
        Some(v) => {
            if v.len() == 0 {
                assert(out@ =~= out@ + unlines(
                    opt_list_lines(kind as nat, key@, iind as nat, l.deep_view()),
                ));
            } else {
                push_key_line(out, kind, key);
                ser_items(out, iind, v, 0);
                proof {
                    let lv = l.deep_view()->Some_0;
                    assert(lv.skip(0) =~= lv);
                    lemma_unlines_app(
                        seq![key_line(kind as nat, key@)],
                        item_lines(iind as nat, lv),
                    );
                    lemma_unlines_single(key_line(kind as nat, key@));
                    assert(final(out)@ =~= old(out)@ + unlines(
                        opt_list_lines(kind as nat, key@, iind as nat, l.deep_view()),
                    ));
                }
            }
        },
        None => {
            assert(out@ =~= out@ + unlines(
                opt_list_lines(kind as nat, key@, iind as nat, l.deep_view()),
            ));
        },
    }
}

/// Appends a nameserver block's role lists.
fn ser_ns_block(out: &mut Vec<char>, ns: &Nameservers)
    ensures
        final(out)@ == old(out)@ + unlines(ns_block_lines(ns.deep_view())),
{
    let ka = kwx_addresses();
    let ks = kwx_search();
    ser_opt_list(out, 8, &ka, 10, &ns.addresses);
    ser_opt_list(out, 8, &ks, 10, &ns.search);
    proof {
        lemma_unlines_app(
            opt_list_lines(8, kw_addresses(), 10, ns.deep_view().addresses),
            opt_list_lines(8, kw_search(), 10, ns.deep_view().search),
        );
    }
}

/// Whether a nameserver block would produce any lines.
fn ns_block_nonempty(ns: &Nameservers) -> (r: bool)
    ensures
        r == (ns_block_lines(ns.deep_view()).len() > 0),
{
    let a = match &ns.addresses {
        Some(v) => v.len() > 0,
        None => false,
    };
    let s = match &ns.search {
        Some(v) => v.len() > 0,
        None => false,
    };
    proof {
        let nsv = ns.deep_view();
        if a || s {
            assert(ns_block_lines(nsv).len() > 0) by {
                if a {
                    assert(opt_list_lines(8, kw_addresses(), 10, nsv.addresses).len() > 0) by {
                        assert(item_lines(10, nsv.addresses->Some_0).len() >= 0);
                    }
                }
            }
        } else {
            assert(opt_list_lines(8, kw_addresses(), 10, nsv.addresses) =~= Seq::<Seq<char>>::empty());
            assert(opt_list_lines(8, kw_search(), 10, nsv.search) =~= Seq::<Seq<char>>::empty());
            assert(ns_block_lines(nsv).len() == 0);
        }
    }
    a || s
}


/// The text of one interface's lines, piece by piece.
#[verifier::rlimit(100)]
proof fn lemma_unlines_nic(nv: NicV)
    ensures
        unlines(nic_lines(nv)) == unlines(opt_list_lines(6, kw_addresses(), 8, nv.addresses))
            + (match nv.dhcp4 {
            Some(b) => kv_line(6, kw_dhcp4(), bool_chars(b)) + seq!['\n'],
            None => Seq::<char>::empty(),
        }) + (match nv.gateway4 {
            Some(g) => kv_line(6, kw_gateway4(), g) + seq!['\n'],
            None => Seq::<char>::empty(),
        }) + (match nv.nameservers {
            Some(ns) => if ns_block_lines(ns).len() == 0 {
                Seq::<char>::empty()
            } else {
                key_line(6, kw_nameservers()) + seq!['\n'] + unlines(ns_block_lines(ns))
            },
            None => Seq::<char>::empty(),
        }) + (match nv.optional {
            Some(b) => kv_line(6, kw_optional(), bool_chars(b)) + seq!['\n'],
            None => Seq::<char>::empty(),
        }),
{
    let part1 = opt_list_lines(6, kw_addresses(), 8, nv.addresses);
    let part2 = match nv.dhcp4 {
        Some(b) => seq![kv_line(6, kw_dhcp4(), bool_chars(b))],
        None => Seq::<Seq<char>>::empty(),
    };
    let part3 = match nv.gateway4 {
        Some(g) => seq![kv_line(6, kw_gateway4(), g)],
        None => Seq::<Seq<char>>::empty(),
    };
    let part4 = match nv.nameservers {
        Some(ns) => if ns_block_lines(ns).len() == 0 {
            Seq::<Seq<char>>::empty()
        } else {
            seq![key_line(6, kw_nameservers())] + ns_block_lines(ns)
        },
        None => Seq::<Seq<char>>::empty(),
    };
    let part5 = match nv.optional {
        Some(b) => seq![kv_line(6, kw_optional(), bool_chars(b))],
        None => Seq::<Seq<char>>::empty(),
    };
    lemma_unlines_parts(part1, part2, part3, part4, part5);
    assert(nic_lines(nv) == part1 + part2 + part3 + part4 + part5);
    if nv.dhcp4 is Some {
        lemma_unlines_single(kv_line(6, kw_dhcp4(), bool_chars(nv.dhcp4->Some_0)));
    }
    if nv.gateway4 is Some {
        lemma_unlines_single(kv_line(6, kw_gateway4(), nv.gateway4->Some_0));
    }
    if nv.optional is Some {
        lemma_unlines_single(kv_line(6, kw_optional(), bool_chars(nv.optional->Some_0)));
    }
    if nv.nameservers is Some && ns_block_lines(nv.nameservers->Some_0).len() > 0 {
        lemma_unlines_app(
            seq![key_line(6, kw_nameservers())],
            ns_block_lines(nv.nameservers->Some_0),
        );
        lemma_unlines_single(key_line(6, kw_nameservers()));
    }
    assert(unlines(part4) =~= match nv.nameservers {
        Some(ns) => if ns_block_lines(ns).len() == 0 {
            Seq::<char>::empty()
        } else {
            key_line(6, kw_nameservers()) + seq!['\n'] + unlines(ns_block_lines(ns))
        },
        None => Seq::<char>::empty(),
    });
}

/// The text of a whole document's lines, piece by piece.
#[verifier::rlimit(100)]
proof fn lemma_unlines_doc(dv: DocV)
    ensures
        unlines(doc_lines(dv)) == key_line(0, kw_network()) + seq!['\n'] + (match dv.version {
            Some(n) => kv_line(2, kw_version(), dec_digits(n as nat)) + seq!['\n'],
            None => Seq::<char>::empty(),
        }) + (match dv.renderer {
            Some(rr) => kv_line(2, kw_renderer(), rr) + seq!['\n'],
            None => Seq::<char>::empty(),
        }) + (key_line(2, kw_ethernets()) + seq!['\n']) + unlines(eth_lines(dv.ethernets))
            + (match dv.bridges {
            Some(bs) => key_line(2, kw_bridges()) + seq!['\n'] + unlines(bridge_lines(bs)),
            None => Seq::<char>::empty(),
        }),
{
    let p1 = seq![key_line(0, kw_network())];
    let p2 = match dv.version {
        Some(n) => seq![kv_line(2, kw_version(), dec_digits(n as nat))],
        None => Seq::<Seq<char>>::empty(),
    };
    let p3 = match dv.renderer {
        Some(rr) => seq![kv_line(2, kw_renderer(), rr)],
        None => Seq::<Seq<char>>::empty(),
    };
    let p4 = seq![key_line(2, kw_ethernets())];
    let p5 = eth_lines(dv.ethernets);
    let p6 = match dv.bridges {
        Some(bs) => seq![key_line(2, kw_bridges())] + bridge_lines(bs),
        None => Seq::<Seq<char>>::empty(),
    };
    lemma_unlines_parts(p1 + p2, p3, p4, p5, p6);
    lemma_unlines_app(p1, p2);
    assert(doc_lines(dv) == p1 + p2 + p3 + p4 + p5 + p6);
    assert((p1 + p2) + p3 + p4 + p5 + p6 =~= p1 + p2 + p3 + p4 + p5 + p6);
    lemma_unlines_single(key_line(0, kw_network()));
    lemma_unlines_single(key_line(2, kw_ethernets()));
    if dv.version is Some {
        lemma_unlines_single(kv_line(2, kw_version(), dec_digits(dv.version->Some_0 as nat)));
    }
    if dv.renderer is Some {
        lemma_unlines_single(kv_line(2, kw_renderer(), dv.renderer->Some_0));
    }
    if dv.bridges is Some {
        lemma_unlines_app(seq![key_line(2, kw_bridges())], bridge_lines(dv.bridges->Some_0));
        lemma_unlines_single(key_line(2, kw_bridges()));
    }
}

/// Appends one interface's settings lines.
#[verifier::rlimit(100)]
fn ser_nic(out: &mut Vec<char>, n: &Nic)
    ensures
        final(out)@ == old(out)@ + unlines(nic_lines(n.deep_view())),
{
    let ghost nv = n.deep_view();
    let ka = kwx_addresses();
    ser_opt_list(out, 6, &ka, 8, &n.addresses);
    let ghost part1 = opt_list_lines(6, kw_addresses(), 8, nv.addresses);
    match &n.dhcp4 {
        Some(b) => {
            let kd = kwx_dhcp4();
            push_bool_kv(out, 6, &kd, *b);
        },
        None => {},
    }
    let ghost part2 = match nv.dhcp4 {
        Some(b) => seq![kv_line(6, kw_dhcp4(), bool_chars(b))],
        None => Seq::<Seq<char>>::empty(),
    };
    match &n.gateway4 {
        Some(g) => {
            let kg = kwx_gateway4();
            let gv = str_to_chars(g.as_str());
            push_kv_line(out, 6, &kg, &gv);
        },
        None => {},
    }
    let ghost part3 = match nv.gateway4 {
        Some(g) => seq![kv_line(6, kw_gateway4(), g)],
        None => Seq::<Seq<char>>::empty(),
    };
    match &n.nameservers {
        Some(ns) => {
            if ns_block_nonempty(ns) {
                let kn = kwx_nameservers();
                push_key_line(out, 6, &kn);
                ser_ns_block(out, ns);
            }
        },
        None => {},
    }
    let ghost part4 = match nv.nameservers {
        Some(ns) => if ns_block_lines(ns).len() == 0 {
            Seq::<Seq<char>>::empty()
        } else {
            seq![key_line(6, kw_nameservers())] + ns_block_lines(ns)
        },
        None => Seq::<Seq<char>>::empty(),
    };
    match &n.optional {
        Some(b) => {
            let ko = kwx_optional();
            push_bool_kv(out, 6, &ko, *b);
        },
        None => {},
    }
    let ghost part5 = match nv.optional {
        Some(b) => seq![kv_line(6, kw_optional(), bool_chars(b))],
        None => Seq::<Seq<char>>::empty(),
    };
    proof {
        lemma_unlines_nic(nv);
        assert(final(out)@ =~= old(out)@ + unlines(nic_lines(nv)));
    }
}

/// Joining five concatenated line lists equals the concatenation of the
/// joins.
proof fn lemma_unlines_parts(
    a: Seq<Seq<char>>,
    b: Seq<Seq<char>>,
    c: Seq<Seq<char>>,
    d: Seq<Seq<char>>,
    e: Seq<Seq<char>>,
)
    ensures
        unlines(a + b + c + d + e) == unlines(a) + unlines(b) + unlines(c) + unlines(d) + unlines(
            e,
        ),
{
    lemma_unlines_app(a + b + c + d, e);
    lemma_unlines_app(a + b + c, d);
    lemma_unlines_app(a + b, c);
    lemma_unlines_app(a, b);
}

/// Appends the interface entries from position `idx` on.
#[verifier::rlimit(100)]
fn ser_eths(out: &mut Vec<char>, v: &Vec<(String, Nic)>, idx: usize)
    requires
        idx <= v.len(),
    ensures
        final(out)@ == old(out)@ + unlines(eth_lines(v.deep_view().skip(idx as int))),
    decreases v.len() - idx,
{
    let ghost tail = v.deep_view().skip(idx as int);
    if idx == v.len() {
        assert(tail.len() == 0);
        assert(out@ =~= out@ + unlines(eth_lines(tail)));
        return;
    }
    let nm = str_to_chars(v[idx].0.as_str());
    assert(nm@ == tail[0].0);
    push_key_line(out, 4, &nm);
    ser_nic(out, &v[idx].1);
    ser_eths(out, v, idx + 1);
    proof {
        assert(v.deep_view().skip(idx as int + 1) =~= tail.skip(1));
        assert(eth_lines(tail) == seq![key_line(4, tail[0].0)] + nic_lines(tail[0].1) + eth_lines(
            tail.skip(1),
        ));
        lemma_unlines_app(
            seq![key_line(4, tail[0].0)] + nic_lines(tail[0].1),
            eth_lines(tail.skip(1)),
        );
        lemma_unlines_app(seq![key_line(4, tail[0].0)], nic_lines(tail[0].1));
        lemma_unlines_single(key_line(4, tail[0].0));
        assert(final(out)@ =~= old(out)@ + unlines(eth_lines(tail)));
    }
}

/// Appends one bridge's settings lines.
#[verifier::rlimit(100)]
fn ser_bridge_body(out: &mut Vec<char>, b: &Bridge)
    ensures
        final(out)@ == old(out)@ + unlines(bridge_body_lines(b.deep_view())),
{
    let ghost bv = b.deep_view();
    let ki = kwx_interfaces();
    push_key_line(out, 6, &ki);
    ser_items(out, 8, &b.interfaces, 0);
    let ka = kwx_addresses();
    push_key_line(out, 6, &ka);
    ser_items(out, 8, &b.addresses, 0);
    match &b.gateway4 {
        Some(g) => {
            let kg = kwx_gateway4();
            let gv = str_to_chars(g.as_str());
            push_kv_line(out, 6, &kg, &gv);
        },
        None => {},
    }
    let kn = kwx_nameservers();
    push_key_line(out, 6, &kn);
    ser_ns_block(out, &b.nameservers);
    proof {
        let p1 = seq![key_line(6, kw_interfaces())];
        let p2 = item_lines(8, bv.interfaces);
        let p3 = seq![key_line(6, kw_addresses())];
        let p4 = item_lines(8, bv.addresses);
        let p5 = match bv.gateway4 {
            Some(g) => seq![kv_line(6, kw_gateway4(), g)],
            None => Seq::<Seq<char>>::empty(),
        };
        let p6 = seq![key_line(6, kw_nameservers())];
        let p7 = ns_block_lines(bv.nameservers);
        assert(bv.interfaces.skip(0) =~= bv.interfaces);
        assert(bv.addresses.skip(0) =~= bv.addresses);
        lemma_unlines_app(p1 + p2 + p3 + p4 + p5 + p6, p7);
        lemma_unlines_app(p1 + p2 + p3 + p4 + p5, p6);
        lemma_unlines_app(p1 + p2 + p3 + p4, p5);
        lemma_unlines_app(p1 + p2 + p3, p4);
        lemma_unlines_app(p1 + p2, p3);
        lemma_unlines_app(p1, p2);
        lemma_unlines_single(key_line(6, kw_interfaces()));
        lemma_unlines_single(key_line(6, kw_addresses()));
        assert(unlines(p5) =~= match bv.gateway4 {
            Some(g) => kv_line(6, kw_gateway4(), g) + seq!['\n'],
            None => Seq::<char>::empty(),
        }) by {
            if bv.gateway4 is Some {
                lemma_unlines_single(p5[0]);
                assert(p5 =~= seq![p5[0]]);
            }
        }
        lemma_unlines_single(key_line(6, kw_nameservers()));
        assert(bridge_body_lines(bv) == p1 + p2 + p3 + p4 + p5 + p6 + p7);
        assert(final(out)@ =~= old(out)@ + unlines(bridge_body_lines(bv)));
    }
}

/// Appends the bridge entries from position `idx` on.
fn ser_bridges(out: &mut Vec<char>, v: &Vec<(String, Bridge)>, idx: usize)
    requires
        idx <= v.len(),
    ensures
        final(out)@ == old(out)@ + unlines(bridge_lines(v.deep_view().skip(idx as int))),
    decreases v.len() - idx,
{
    let ghost tail = v.deep_view().skip(idx as int);
    if idx == v.len() {
        assert(tail.len() == 0);
        assert(out@ =~= out@ + unlines(bridge_lines(tail)));
        return;
    }
    let nm = str_to_chars(v[idx].0.as_str());
    assert(nm@ == tail[0].0);
    push_key_line(out, 4, &nm);
    ser_bridge_body(out, &v[idx].1);
    ser_bridges(out, v, idx + 1);
    proof {
        assert(v.deep_view().skip(idx as int + 1) =~= tail.skip(1));
        assert(bridge_lines(tail) == seq![key_line(4, tail[0].0)] + bridge_body_lines(tail[0].1)
            + bridge_lines(tail.skip(1)));
        lemma_unlines_app(
            seq![key_line(4, tail[0].0)] + bridge_body_lines(tail[0].1),
            bridge_lines(tail.skip(1)),
        );
        lemma_unlines_app(seq![key_line(4, tail[0].0)], bridge_body_lines(tail[0].1));
        lemma_unlines_single(key_line(4, tail[0].0));
        assert(final(out)@ =~= old(out)@ + unlines(bridge_lines(tail)));
    }
}

impl NetplanYaml {
    /// Serializes the document to its textual schema. A field holding the
    /// unset sentinel, and an optional list holding no value, is omitted
    /// entirely, never written as null or empty.
    #[verifier::rlimit(100)]
    pub fn to_text(&self) -> (r: String)
        ensures
            r@ == ser_doc(self.deep_view()),
    {
        let ghost dv = self.deep_view();
        let mut out: Vec<char> = Vec::new();
        let kn = kwx_network();
        push_key_line(&mut out, 0, &kn);
        let ghost p1 = seq![key_line(0, kw_network())];
        match &self.network.version {
            Some(n) => {
                let kv = kwx_version();
                let mut digits: Vec<char> = Vec::new();
                push_dec_digits(&mut digits, *n);
                assert(digits@ =~= dec_digits(*n as nat));
                push_kv_line(&mut out, 2, &kv, &digits);
            },
            None => {},
        }
        let ghost p2 = match dv.version {
            Some(n) => seq![kv_line(2, kw_version(), dec_digits(n as nat))],
            None => Seq::<Seq<char>>::empty(),
        };
        match &self.network.renderer {
            Some(rdr) => {
                let kr = kwx_renderer();
                let rv = str_to_chars(rdr.as_str());
                push_kv_line(&mut out, 2, &kr, &rv);
            },
            None => {},
        }
        let ghost p3 = match dv.renderer {
            Some(rr) => seq![kv_line(2, kw_renderer(), rr)],
            None => Seq::<Seq<char>>::empty(),
        };
        let ke = kwx_ethernets();
        push_key_line(&mut out, 2, &ke);
        let ghost p4 = seq![key_line(2, kw_ethernets())];
        ser_eths(&mut out, &self.network.ethernets, 0);
        let ghost p5 = eth_lines(dv.ethernets);
        assert(dv.ethernets.skip(0) =~= dv.ethernets);
        match &self.network.bridges {
            Some(bs) => {
                let kb = kwx_bridges();
                push_key_line(&mut out, 2, &kb);
                assert(bs.deep_view().skip(0) =~= bs.deep_view());
                ser_bridges(&mut out, bs, 0);
                assert(bs.deep_view() == dv.bridges->Some_0);
            },
            None => {},
        }
        let ghost p6 = match dv.bridges {
            Some(bs) => seq![key_line(2, kw_bridges())] + bridge_lines(bs),
            None => Seq::<Seq<char>>::empty(),
        };
        proof {
            lemma_unlines_doc(dv);
            assert(out@ =~= unlines(doc_lines(dv)));
        }
        chars_to_string(&out)
    }
}

/// Whether two character vectors hold the same characters.
fn chars_eq(a: &Vec<char>, b: &Vec<char>) -> (r: bool)
    ensures
        r == (a@ == b@),
{
    if a.len() != b.len() {
        assert(a@ != b@);
        return false;
    }
    let mut i: usize = 0;
    while i < a.len()
        invariant
            i <= a.len(),
            a@.len() == b@.len(),
            forall|k: int| 0 <= k < i ==> a@[k] == b@[k],
        decreases a.len() - i,
    {
        if a[i] != b[i] {
            return false;
        }
        i = i + 1;
    }
    assert(a@ =~= b@);
    true
}

/// Copies the characters of `l` from `from` (inclusive) to `to` (exclusive).
fn copy_range(l: &Vec<char>, from: usize, to: usize) -> (r: Vec<char>)
    requires
        from <= to <= l.len(),
    ensures
        r@ == l@.subrange(from as int, to as int),
{
    let mut r: Vec<char> = Vec::new();
    let mut i: usize = from;
    while i < to
        invariant
            from <= i <= to <= l.len(),
            r@ =~= l@.subrange(from as int, i as int),
        decreases to - i,
    {
        r.push(l[i]);
        i = i + 1;
        assert(r@ =~= l@.subrange(from as int, i as int));
    }
    r
}

/// Whether `l` starts with `ind` spaces and then the characters of `key`.
fn spaces_key_prefix(l: &Vec<char>, ind: usize, key: &Vec<char>) -> (r: bool)
    requires
        ind + key.len() <= usize::MAX,
    ensures
        r == (l@.len() >= ind + key@.len() && l@.subrange(0, ind + key@.len()) == spaces(
            ind as nat,
        ) + key@),
{
    proof {
        lemma_spaces(ind as nat);
    }
    let ghost pre = spaces(ind as nat) + key@;
    if l.len() < ind + key.len() {
        return false;
    }
    let mut i: usize = 0;
    while i < ind
        invariant
            i <= ind,
            l@.len() >= ind + key@.len(),
            pre == spaces(ind as nat) + key@,
            pre.len() == ind + key@.len(),
            forall|k: int| 0 <= k < i ==> l@[k] == ' ',
            forall|k: int| 0 <= k < ind ==> pre[k] == ' ',
            forall|k: int| 0 <= k < key@.len() ==> pre[ind + k] == key@[k],
        decreases ind - i,
    {
        if l[i] != ' ' {
            assert(l@.subrange(0, pre.len() as int)[i as int] == l@[i as int]);
            return false;
        }
        i = i + 1;
    }
    let mut j: usize = 0;
    while j < key.len()
        invariant
            j <= key@.len(),
            l@.len() >= ind + key@.len(),
            pre == spaces(ind as nat) + key@,
            pre.len() == ind + key@.len(),
            forall|k: int| 0 <= k < ind ==> l@[k] == ' ',
            forall|k: int| 0 <= k < ind ==> pre[k] == ' ',
            forall|k: int| 0 <= k < key@.len() ==> pre[ind + k] == key@[k],
            forall|k: int| 0 <= k < j ==> l@[ind + k] == key@[k],
            ind + key@.len() <= usize::MAX,
        decreases key.len() - j,
    {
        if l[ind + j] != key[j] {
            assert(l@.subrange(0, pre.len() as int)[ind + j] == l@[ind + j]);
            return false;
        }
        j = j + 1;
    }
    assert(l@.subrange(0, pre.len() as int) =~= pre);
    true
}

/// Whether `l` is exactly a block-key line.
fn is_key_line(l: &Vec<char>, ind: usize, key: &Vec<char>) -> (r: bool)
    requires
        ind + key.len() + 1 <= usize::MAX,
    ensures
        r == (l@ == key_line(ind as nat, key@)),
{
    proof {
        lemma_spaces(ind as nat);
    }
    let ghost kl = key_line(ind as nat, key@);
    assert(kl.len() == ind + key@.len() + 1);
    if !spaces_key_prefix(l, ind, key) {
        assert(l@ != kl) by {
            if l@ == kl {
                assert(l@.subrange(0, ind + key@.len()) =~= spaces(ind as nat) + key@);
            }
        }
        return false;
    }
    if l.len() != ind + key.len() + 1 {
        return false;
    }
    if l[ind + key.len()] != ':' {
        assert(kl[ind + key@.len()] == ':');
        return false;
    }
    assert(l@ =~= kl);
    true
}

/// The value of a key/value line, as the parser sees it.
fn try_kv(l: &Vec<char>, ind: usize, key: &Vec<char>) -> (r: Option<Vec<char>>)
    requires
        ind + key.len() + 2 <= usize::MAX,
    ensures
        match r {
            Some(v) => parse_kv(l@, ind as nat, key@) == Some(v@),
            None => parse_kv(l@, ind as nat, key@) is None,
        },
{
    proof {
        lemma_spaces(ind as nat);
    }
    let ghost pre = spaces(ind as nat) + key@ + seq![':', ' '];
    assert(pre.len() == ind + key@.len() + 2);
    if !spaces_key_prefix(l, ind, key) {
        assert(parse_kv(l@, ind as nat, key@) is None) by {
            if l@.len() >= pre.len() && l@.subrange(0, pre.len() as int) == pre {
                assert(l@.subrange(0, ind + key@.len()) =~= spaces(ind as nat) + key@) by {
                    assert forall|k: int| 0 <= k < ind + key@.len()
                        implies l@.subrange(0, ind + key@.len() as int)[k] == (spaces(ind as nat)
                        + key@)[k] by {
                        assert(l@.subrange(0, pre.len() as int)[k] == l@[k]);
                    }
                }
            }
        }
        return None;
    }
    if l.len() < ind + key.len() + 2 {
        return None;
    }
    if l[ind + key.len()] != ':' {
        assert(pre[ind + key@.len()] == ':');
        assert(parse_kv(l@, ind as nat, key@) is None) by {
            if l@.subrange(0, pre.len() as int) == pre {
                assert(l@.subrange(0, pre.len() as int)[ind + key@.len()] == l@[ind + key@.len()]);
            }
        }
        return None;
    }
    if l[ind + key.len() + 1] != ' ' {
        assert(pre[ind + key@.len() + 1] == ' ');
        assert(parse_kv(l@, ind as nat, key@) is None) by {
            if l@.subrange(0, pre.len() as int) == pre {
                assert(l@.subrange(0, pre.len() as int)[ind + key@.len() + 1] == l@[ind
                    + key@.len() + 1]);
            }
        }
        return None;
    }
    let v = copy_range(l, ind + key.len() + 2, l.len());
    assert(l@.subrange(0, pre.len() as int) =~= pre);
    assert(v@ =~= l@.skip(pre.len() as int));
    Some(v)
}

/// The value of an item line, as the parser sees it.
fn try_item(l: &Vec<char>, ind: usize) -> (r: Option<Vec<char>>)
    requires
        ind + 2 <= usize::MAX,
    ensures
        match r {
            Some(v) => parse_item(l@, ind as nat) == Some(v@),
            None => parse_item(l@, ind as nat) is None,
        },
{
    proof {
        lemma_spaces(ind as nat);
    }
    let ghost pre = spaces(ind as nat) + seq!['-', ' '];
    assert(pre.len() == ind + 2);
    if l.len() < ind + 2 {
        return None;
    }
    let mut i: usize = 0;
    while i < ind
        invariant
            i <= ind,
            l@.len() >= ind + 2,
            pre == spaces(ind as nat) + seq!['-', ' '],
            pre.len() == ind + 2,
            forall|k: int| 0 <= k < i ==> l@[k] == ' ',
            forall|k: int| 0 <= k < ind ==> pre[k] == ' ',
        decreases ind - i,
    {
        if l[i] != ' ' {
            assert(parse_item(l@, ind as nat) is None) by {
                if l@.subrange(0, pre.len() as int) == pre {
                    assert(l@.subrange(0, pre.len() as int)[i as int] == l@[i as int]);
                }
            }
            return None;
        }
        i = i + 1;
    }
    if l[ind] != '-' {
        assert(pre[ind as int] == '-');
        assert(parse_item(l@, ind as nat) is None) by {
            if l@.subrange(0, pre.len() as int) == pre {
                assert(l@.subrange(0, pre.len() as int)[ind as int] == l@[ind as int]);
            }
        }
        return None;
    }
    if l[ind + 1] != ' ' {
        assert(pre[ind + 1] == ' ');
        assert(parse_item(l@, ind as nat) is None) by {
            if l@.subrange(0, pre.len() as int) == pre {
                assert(l@.subrange(0, pre.len() as int)[ind + 1] == l@[ind + 1]);
            }
        }
        return None;
    }
    let v = copy_range(l, ind + 2, l.len());
    assert(l@.subrange(0, pre.len() as int) =~= pre);
    assert(v@ =~= l@.skip(pre.len() as int));
    Some(v)
}

/// The name of a mapping-entry line, as the parser sees it.
fn try_name(l: &Vec<char>, ind: usize) -> (r: Option<Vec<char>>)
    requires
        ind + 2 <= usize::MAX,
    ensures
        match r {
            Some(v) => parse_name_line(l@, ind as nat) == Some(v@),
            None => parse_name_line(l@, ind as nat) is None,
        },
{
    proof {
        lemma_spaces(ind as nat);
    }
    if l.len() < ind + 2 {
        return None;
    }
    let mut i: usize = 0;
    while i < ind
        invariant
            i <= ind,
            l@.len() >= ind + 2,
            forall|k: int| 0 <= k < i ==> l@[k] == ' ',
        decreases ind - i,
    {
        if l[i] != ' ' {
            assert(parse_name_line(l@, ind as nat) is None) by {
                lemma_spaces(ind as nat);
                if l@.subrange(0, ind as int) == spaces(ind as nat) {
                    assert(l@.subrange(0, ind as int)[i as int] == l@[i as int]);
                }
            }
            return None;
        }
        i = i + 1;
    }
    assert(l@.subrange(0, ind as int) =~= spaces(ind as nat));
    if l[l.len() - 1] != ':' {
        return None;
    }
    if l[ind] == ' ' {
        return None;
    }
    let mut k: usize = ind;
    while k < l.len() - 1
        invariant
            ind <= k <= l@.len() - 1,
            l@.len() >= ind + 2,
            forall|m: int| ind <= m < k ==> l@[m] != ':',
        decreases l.len() - k,
    {
        if l[k] == ':' {
            return None;
        }
        k = k + 1;
    }
    let v = copy_range(l, ind, l.len() - 1);
    Some(v)
}

/// Reads a boolean value.
fn try_bool(v: &Vec<char>) -> (r: Option<bool>)
    ensures
        r == p_bool(v@),
{
    let t = kwx_true();
    if chars_eq(v, &t) {
        return Some(true);
    }
    let f = kwx_false();
    if chars_eq(v, &f) {
        return Some(false);
    }
    None
}

/// Reads a decimal number that fits the schema version's range.
fn try_u32(v: &Vec<char>) -> (r: Option<u32>)
    ensures
        match r {
            Some(n) => dec_value(v@) == Some(n as nat),
            None => !(dec_value(v@) is Some && dec_value(v@)->Some_0 <= u32::MAX),
        },
{
    if v.len() == 0 {
        return None;
    }
    let mut acc: u64 = 0;
    let mut big = false;
    let ghost mut p: nat = 0nat;
    let mut i: usize = 0;
    assert(v@.skip(0) =~= v@);
    while i < v.len()
        invariant
            i <= v.len(),
            v@.len() > 0,
            dec_value_acc(v@, 0) == dec_value_acc(v@.skip(i as int), p),
            !big ==> p == acc as nat && acc <= u32::MAX as u64,
            big ==> p > u32::MAX,
        decreases v.len() - i,
    {
        let ghost rest = v@.skip(i as int);
        assert(rest[0] == v@[i as int]);
        assert(rest.skip(1) =~= v@.skip(i as int + 1));
        let c = v[i];
        let d: u64 = match c {
            '0' => 0,
            '1' => 1,
            '2' => 2,
            '3' => 3,
            '4' => 4,
            '5' => 5,
            '6' => 6,
            '7' => 7,
            '8' => 8,
            '9' => 9,
            _ => {
                assert(crate::text::char_digit(v@[i as int]) >= 10);
                assert(dec_value_acc(rest, p) is None);
                return None;
            },
        };
        assert(d as nat == crate::text::char_digit(v@[i as int]));
        proof {
            lemma_dec_acc_lower(rest.skip(1), p * 10 + d as nat);
        }
        if !big {
            acc = acc * 10 + d;
            if acc > 0xffff_ffff {
                big = true;
            }
        }
        proof {
            p = p * 10 + d as nat;
        }
        i = i + 1;
    }
    assert(v@.skip(v@.len() as int).len() == 0);
    assert(dec_value_acc(v@, 0) == Some(p));
    assert(dec_value(v@) == Some(p));
    if big {
        return None;
    }
    Some(acc as u32)
}

/// A digit string's value only grows as digits are read.
proof fn lemma_dec_acc_lower(s: Seq<char>, acc: nat)
    ensures
        dec_value_acc(s, acc) is Some ==> dec_value_acc(s, acc)->Some_0 >= acc,
    decreases s.len(),
{
    if s.len() > 0 && crate::text::char_digit(s[0]) < 10 {
        lemma_dec_acc_lower(s.skip(1), acc * 10 + crate::text::char_digit(s[0]));
    }
}

/// Reads consecutive item lines at the given indent.
fn e_items(ls: &Vec<Vec<char>>, i: usize, ind: usize) -> (r: (Vec<String>, usize))
    requires
        i <= ls.len(),
        ind + 2 <= usize::MAX,
    ensures
        p_items(ls.deep_view(), i as int, ind as nat).0 == r.0.deep_view(),
        p_items(ls.deep_view(), i as int, ind as nat).1 == r.1 as int,
        i <= r.1 <= ls.len(),
    decreases ls.len() - i,
{
    let ghost lsv = ls.deep_view();
    if i == ls.len() {
        let empty: Vec<String> = Vec::new();
        assert(empty.deep_view() =~= p_items(lsv, i as int, ind as nat).0);
        return (empty, i);
    }
    assert(ls.deep_view()[i as int] == ls@[i as int]@);
    match try_item(&ls[i], ind) {
        Some(v) => {
            let sv = chars_to_string(&v);
            let (mut rest, j) = e_items(ls, i + 1, ind);
            rest.insert(0, sv);
            assert(rest.deep_view() =~= p_items(lsv, i as int, ind as nat).0);
            (rest, j)
        },
        None => {
            let empty: Vec<String> = Vec::new();
            assert(empty.deep_view() =~= p_items(lsv, i as int, ind as nat).0);
            (empty, i)
        },
    }
}

/// Reads an optional list field.
fn e_opt_list(ls: &Vec<Vec<char>>, i: usize, kind: usize, key: &Vec<char>, iind: usize) -> (r:
    Option<(Option<Vec<String>>, usize)>)
    requires
        i <= ls.len(),
        kind + key.len() + 1 <= usize::MAX,
        iind + 2 <= usize::MAX,
    ensures
        match r {
            Some((l, j)) => p_opt_list(ls.deep_view(), i as int, kind as nat, key@, iind as nat)
                == Some((l.deep_view(), j as int)) && i <= j <= ls.len(),
            None => p_opt_list(ls.deep_view(), i as int, kind as nat, key@, iind as nat) is None,
        },
{
    let ghost lsv = ls.deep_view();
    if i < ls.len() {
        assert(ls.deep_view()[i as int] == ls@[i as int]@);
        if is_key_line(&ls[i], kind, key) {
            let (items, j) = e_items(ls, i + 1, iind);
            if items.len() == 0 {
                assert(items.deep_view().len() == 0);
                return None;
            }
            assert(items.deep_view().len() > 0);
            return Some((Some(items), j));
        }
    }
    let n: Option<Vec<String>> = None;
    assert(n.deep_view() == Option::<Seq<Seq<char>>>::None);
    Some((n, i))
}

/// Reads a required list field.
fn e_req_list(ls: &Vec<Vec<char>>, i: usize, kind: usize, key: &Vec<char>, iind: usize) -> (r:
    Option<(Vec<String>, usize)>)
    requires
        i <= ls.len(),
        kind + key.len() + 1 <= usize::MAX,
        iind + 2 <= usize::MAX,
    ensures
        match r {
            Some((l, j)) => p_req_list(ls.deep_view(), i as int, kind as nat, key@, iind as nat)
                == Some((l.deep_view(), j as int)) && i <= j <= ls.len(),
            None => p_req_list(ls.deep_view(), i as int, kind as nat, key@, iind as nat) is None,
        },
{
    if i < ls.len() {
        assert(ls.deep_view()[i as int] == ls@[i as int]@);
        if is_key_line(&ls[i], kind, key) {
            let (items, j) = e_items(ls, i + 1, iind);
            return Some((items, j));
        }
    }
    None
}

/// Reads an optional key/value line.
fn e_opt_kv(ls: &Vec<Vec<char>>, i: usize, ind: usize, key: &Vec<char>) -> (r: (
    Option<Vec<char>>,
    usize,
))
    requires
        i <= ls.len(),
        ind + key.len() + 2 <= usize::MAX,
    ensures
        p_opt_kv(ls.deep_view(), i as int, ind as nat, key@) == (
            match r.0 {
                Some(v) => Some(v@),
                None => None,
            },
            r.1 as int,
        ),
        i <= r.1 <= ls.len(),
{
    if i < ls.len() {
        assert(ls.deep_view()[i as int] == ls@[i as int]@);
        match try_kv(&ls[i], ind, key) {
            Some(v) => {
                return (Some(v), i + 1);
            },
            None => {},
        }
    }
    (None, i)
}

/// Reads the two role lists of a nameserver block.
fn e_ns_block(ls: &Vec<Vec<char>>, i: usize) -> (r: Option<(Nameservers, usize)>)
    requires
        i <= ls.len(),
    ensures
        match r {
            Some((ns, j)) => p_ns_block(ls.deep_view(), i as int) == Some(
                (ns.deep_view(), j as int),
            ) && i <= j <= ls.len(),
            None => p_ns_block(ls.deep_view(), i as int) is None,
        },
{
    let ka = kwx_addresses();
    let a = match e_opt_list(ls, i, 8, &ka, 10) {
        Some(x) => x,
        None => {
            return None;
        },
    };
    let ks = kwx_search();
    let srch = match e_opt_list(ls, a.1, 8, &ks, 10) {
        Some(x) => x,
        None => {
            return None;
        },
    };
    let j = srch.1;
    Some((Nameservers { addresses: a.0, search: srch.0 }, j))
}

/// Reads one interface's settings.
fn e_nic(ls: &Vec<Vec<char>>, i: usize) -> (r: Option<(Nic, usize)>)
    requires
        i <= ls.len(),
    ensures
        match r {
            Some((n, j)) => p_nic(ls.deep_view(), i as int) == Some((n.deep_view(), j as int)) && i
                <= j <= ls.len(),
            None => p_nic(ls.deep_view(), i as int) is None,
        },
{
    let ghost lsv = ls.deep_view();
    let ka = kwx_addresses();
    let addrs = match e_opt_list(ls, i, 6, &ka, 8) {
        Some(x) => x,
        None => {
            return None;
        },
    };
    let kd = kwx_dhcp4();
    let (dv, i2) = e_opt_kv(ls, addrs.1, 6, &kd);
    let dhcp4 = match dv {
        Some(v) => match try_bool(&v) {
            Some(b) => Some(b),
            None => {
                return None;
            },
        },
        None => None,
    };
    let kg = kwx_gateway4();
    let (gv, i3) = e_opt_kv(ls, i2, 6, &kg);
    let gateway4 = match gv {
        Some(v) => Some(chars_to_string(&v)),
        None => None,
    };
    let kn = kwx_nameservers();
    let ns_here = i3 < ls.len() && is_key_line(&ls[i3], 6, &kn);
    proof {
        if i3 < ls.len() {
            assert(ls.deep_view()[i3 as int] == ls@[i3 as int]@);
        }
    }
    if ns_here {
        let nsr = match e_ns_block(ls, i3 + 1) {
            Some(x) => x,
            None => {
                return None;
            },
        };
        let ns = nsr.0;
        let i4 = nsr.1;
        if ns.addresses.is_none() && ns.search.is_none() {
            return None;
        }
        let ko = kwx_optional();
        let (ov, i5) = e_opt_kv(ls, i4, 6, &ko);
        let optional = match ov {
            Some(v) => match try_bool(&v) {
                Some(b) => Some(b),
                None => {
                    return None;
                },
            },
            None => None,
        };
        Some((Nic { addresses: addrs.0, dhcp4, gateway4, nameservers: Some(ns), optional }, i5))
    } else {
        let ko = kwx_optional();
        let (ov, i5) = e_opt_kv(ls, i3, 6, &ko);
        let optional = match ov {
            Some(v) => match try_bool(&v) {
                Some(b) => Some(b),
                None => {
                    return None;
                },
            },
            None => None,
        };
        Some((Nic { addresses: addrs.0, dhcp4, gateway4, nameservers: None, optional }, i5))
    }
}

/// Reads the interface mapping.
fn e_eths(ls: &Vec<Vec<char>>, i: usize) -> (r: Option<(Vec<(String, Nic)>, usize)>)
    requires
        i <= ls.len(),
    ensures
        match r {
            Some((v, j)) => p_eths(ls.deep_view(), i as int) == Some((v.deep_view(), j as int))
                && i <= j <= ls.len(),
            None => p_eths(ls.deep_view(), i as int) is None,
        },
    decreases ls.len() - i,
{
    let ghost lsv = ls.deep_view();
    if i == ls.len() {
        let empty: Vec<(String, Nic)> = Vec::new();
        assert(empty.deep_view() =~= Seq::<(Seq<char>, NicV)>::empty());
        return Some((empty, i));
    }
    assert(ls.deep_view()[i as int] == ls@[i as int]@);
    let name = match try_name(&ls[i], 4) {
        Some(v) => v,
        None => {
            let empty: Vec<(String, Nic)> = Vec::new();
            assert(empty.deep_view() =~= Seq::<(Seq<char>, NicV)>::empty());
            return Some((empty, i));
        },
    };
    let nm = chars_to_string(&name);
    let nicr = match e_nic(ls, i + 1) {
        Some(x) => x,
        None => {
            return None;
        },
    };
    let nic = nicr.0;
    let j = nicr.1;
    let restr = match e_eths(ls, j) {
        Some(x) => x,
        None => {
            return None;
        },
    };
    let mut rest = restr.0;
    let k = restr.1;
    rest.insert(0, (nm, nic));
    assert(rest.deep_view() =~= seq![(name@, nic.deep_view())] + restr.0.deep_view());
    Some((rest, k))
}

/// Reads one bridge's settings.
fn e_bridge(ls: &Vec<Vec<char>>, i: usize) -> (r: Option<(Bridge, usize)>)
    requires
        i <= ls.len(),
    ensures
        match r {
            Some((b, j)) => p_bridge(ls.deep_view(), i as int) == Some(
                (b.deep_view(), j as int),
            ) && i <= j <= ls.len(),
            None => p_bridge(ls.deep_view(), i as int) is None,
        },
{
    let ki = kwx_interfaces();
    let ifs = match e_req_list(ls, i, 6, &ki, 8) {
        Some(x) => x,
        None => {
            return None;
        },
    };
    let ka = kwx_addresses();
    let addrs = match e_req_list(ls, ifs.1, 6, &ka, 8) {
        Some(x) => x,
        None => {
            return None;
        },
    };
    let kg = kwx_gateway4();
    let (gv, i3) = e_opt_kv(ls, addrs.1, 6, &kg);
    let gateway4 = match gv {
        Some(v) => Some(chars_to_string(&v)),
        None => None,
    };
    let kn = kwx_nameservers();
    if !(i3 < ls.len() && is_key_line(&ls[i3], 6, &kn)) {
        proof {
            if i3 < ls.len() {
                assert(ls.deep_view()[i3 as int] == ls@[i3 as int]@);
            }
        }
        return None;
    }
    assert(ls.deep_view()[i3 as int] == ls@[i3 as int]@);
    let nsr = match e_ns_block(ls, i3 + 1) {
        Some(x) => x,
        None => {
            return None;
        },
    };
    Some(
        (
            Bridge {
                interfaces: ifs.0,
                addresses: addrs.0,
                gateway4,
                nameservers: nsr.0,
            },
            nsr.1,
        ),
    )
}

/// Reads the bridge mapping.
fn e_bridges(ls: &Vec<Vec<char>>, i: usize) -> (r: Option<(Vec<(String, Bridge)>, usize)>)
    requires
        i <= ls.len(),
    ensures
        match r {
            Some((v, j)) => p_bridges(ls.deep_view(), i as int) == Some(
                (v.deep_view(), j as int),
            ) && i <= j <= ls.len(),
            None => p_bridges(ls.deep_view(), i as int) is None,
        },
    decreases ls.len() - i,
{
    let ghost lsv = ls.deep_view();
    if i == ls.len() {
        let empty: Vec<(String, Bridge)> = Vec::new();
        assert(empty.deep_view() =~= Seq::<(Seq<char>, BridgeV)>::empty());
        return Some((empty, i));
    }
    assert(ls.deep_view()[i as int] == ls@[i as int]@);
    let name = match try_name(&ls[i], 4) {
        Some(v) => v,
        None => {
            let empty: Vec<(String, Bridge)> = Vec::new();
            assert(empty.deep_view() =~= Seq::<(Seq<char>, BridgeV)>::empty());
            return Some((empty, i));
        },
    };
    let nm = chars_to_string(&name);
    let br = match e_bridge(ls, i + 1) {
        Some(x) => x,
        None => {
            return None;
        },
    };
    let restr = match e_bridges(ls, br.1) {
        Some(x) => x,
        None => {
            return None;
        },
    };
    let mut rest = restr.0;
    let k = restr.1;
    rest.insert(0, (nm, br.0));
    assert(rest.deep_view() =~= seq![(name@, br.0.deep_view())] + restr.0.deep_view());
    Some((rest, k))
}

/// Whether all entry names are distinct.
fn check_unique<T: DeepView>(v: &Vec<(String, T)>) -> (r: bool)
    ensures
        r == unique_names(v.deep_view()),
{
    let ghost s = v.deep_view();
    let mut i: usize = 0;
    while i < v.len()
        invariant
            i <= v.len(),
            s == v.deep_view(),
            forall|a: int, b: int| 0 <= a < b < s.len() && a < i ==> s[a].0 != s[b].0,
        decreases v.len() - i,
    {
        let mut j: usize = i + 1;
        while j < v.len()
            invariant
                i < j <= v.len() || (i + 1 == j && j > v.len() - 1 && j <= v.len()),
                i < v.len(),
                j >= i + 1,
                j <= v.len(),
                s == v.deep_view(),
                forall|b: int| i < b < j ==> s[i as int].0 != s[b].0,
            decreases v.len() - j,
        {
            if crate::text::str_eq(v[i].0.as_str(), v[j].0.as_str()) {
                assert(s[i as int].0 == s[j as int].0);
                return false;
            }
            j = j + 1;
        }
        i = i + 1;
    }
    assert forall|a: int, b: int| 0 <= a < b < s.len() implies s[a].0 != s[b].0 by {}
    true
}

/// Splits text into newline-terminated lines.
fn e_lines(chars: &Vec<char>, start: usize) -> (r: Option<Vec<Vec<char>>>)
    requires
        start <= chars.len(),
    ensures
        match r {
            Some(v) => to_lines(chars@.skip(start as int)) == Some(v.deep_view()),
            None => to_lines(chars@.skip(start as int)) is None,
        },
    decreases chars.len() - start,
{
    let ghost tail = chars@.skip(start as int);
    if start == chars.len() {
        let empty: Vec<Vec<char>> = Vec::new();
        assert(empty.deep_view() =~= Seq::<Seq<char>>::empty());
        return Some(empty);
    }
    let mut k: usize = start;
    while k < chars.len() && chars[k] != '\n'
        invariant
            start <= k <= chars.len(),
            tail == chars@.skip(start as int),
            forall|m: int| start <= m < k ==> chars@[m] != '\n',
        decreases chars.len() - k,
    {
        k = k + 1;
    }
    if k == chars.len() {
        assert(!tail.contains('\n')) by {
            if tail.contains('\n') {
                let m = choose|m: int| 0 <= m < tail.len() && tail[m] == '\n';
                assert(chars@[start + m] == '\n');
            }
        }
        return None;
    }
    assert(chars@[k as int] == '\n');
    assert(tail[k - start] == '\n');
    assert(tail.contains('\n'));
    proof {
        lemma_first_nl(tail);
        let f = first_nl(tail);
        assert forall|m: int| 0 <= m < k - start implies tail[m] != '\n' by {
            assert(tail[m] == chars@[start + m]);
        }
        if f < k - start {
            assert(tail[f] != '\n');
        }
        if f > k - start {
            assert(tail[k - start] != '\n');
        }
        assert(f == k - start);
    }
    let line = copy_range(chars, start, k);
    assert(line@ =~= tail.subrange(0, k - start));
    let restr = match e_lines(chars, k + 1) {
        Some(v) => v,
        None => {
            assert(chars@.skip(k as int + 1) =~= tail.skip(k - start + 1));
            return None;
        },
    };
    assert(chars@.skip(k as int + 1) =~= tail.skip(k - start + 1));
    let mut rest = restr;
    let ghost restv = rest.deep_view();
    let ghost rests = rest@;
    rest.insert(0, line);
    proof {
        assert(rest@ == rests.insert(0, line));
        assert forall|m: int| 0 <= m < rest@.len()
            implies rest.deep_view()[m] == (seq![tail.subrange(0, k - start)] + restv)[m] by {
            if m > 0 {
                assert(rest@[m] == rests[m - 1]);
            } else {
                assert(rest@[0] == line);
            }
        }
        assert(rest.deep_view() =~= seq![tail.subrange(0, k - start)] + restv);
    }
    Some(rest)
}

impl NetplanYaml {
    /// Parses a document from its full textual contents. Fails with a
    /// malformed-configuration error on any syntax error, any field outside
    /// the schema, and any duplicated name.
    pub fn parse(text: &str) -> (r: Result<NetplanYaml, IfError>)
        ensures
            match parse_doc_spec(text@) {
                Some(dv) => r is Ok && r->Ok_0.deep_view() == dv,
                None => r matches Err(e) && e matches IfError::MalformedConfig(_),
            },
    {
        let chars = str_to_chars(text);
        assert(chars@.skip(0) =~= text@);
        let ls = match e_lines(&chars, 0) {
            Some(v) => v,
            None => {
                return Err(IfError::MalformedConfig(malformed_msg()));
            },
        };
        let ghost lsv = ls.deep_view();
        let kn = kwx_network();
        if ls.len() == 0 {
            return Err(IfError::MalformedConfig(malformed_msg()));
        }
        assert(ls.deep_view()[0] == ls@[0]@);
        if !is_key_line(&ls[0], 0, &kn) {
            return Err(IfError::MalformedConfig(malformed_msg()));
        }
        let kv = kwx_version();
        let (vv, i1) = e_opt_kv(&ls, 1, 2, &kv);
        let version = match vv {
            Some(v) => match try_u32(&v) {
                Some(n) => Some(n),
                None => {
                    return Err(IfError::MalformedConfig(malformed_msg()));
                },
            },
            None => None,
        };
        let kr = kwx_renderer();
        let (rv, i2) = e_opt_kv(&ls, i1, 2, &kr);
        let renderer = match rv {
            Some(v) => Some(chars_to_string(&v)),
            None => None,
        };
        let ke = kwx_ethernets();
        if i2 >= ls.len() {
            return Err(IfError::MalformedConfig(malformed_msg()));
        }
        assert(ls.deep_view()[i2 as int] == ls@[i2 as int]@);
        if !is_key_line(&ls[i2], 2, &ke) {
            return Err(IfError::MalformedConfig(malformed_msg()));
        }
        let er = match e_eths(&ls, i2 + 1) {
            Some(x) => x,
            None => {
                return Err(IfError::MalformedConfig(malformed_msg()));
            },
        };
        let eths = er.0;
        let i3 = er.1;
        if !check_unique(&eths) {
            return Err(IfError::MalformedConfig(malformed_msg()));
        }
        let kb = kwx_bridges();
        let br_here = i3 < ls.len() && is_key_line(&ls[i3], 2, &kb);
        proof {
            if i3 < ls.len() {
                assert(ls.deep_view()[i3 as int] == ls@[i3 as int]@);
            }
        }
        if br_here {
            let brr = match e_bridges(&ls, i3 + 1) {
                Some(x) => x,
                None => {
                    return Err(IfError::MalformedConfig(malformed_msg()));
                },
            };
            let bs = brr.0;
            let i4 = brr.1;
            if !check_unique(&bs) {
                return Err(IfError::MalformedConfig(malformed_msg()));
            }
            if i4 != ls.len() {
                return Err(IfError::MalformedConfig(malformed_msg()));
            }
            Ok(
                NetplanYaml {
                    network: Network {
                        version,
                        renderer,
                        ethernets: eths,
                        bridges: Some(bs),
                    },
                },
            )
        } else {
            if i3 != ls.len() {
                return Err(IfError::MalformedConfig(malformed_msg()));
            }
            Ok(NetplanYaml { network: Network { version, renderer, ethernets: eths, bridges: None } })
        }
    }
}

/// The message carried by a malformed-configuration error.
fn malformed_msg() -> String {
    String::from_str("configuration file does not match the document schema")
}

} // verus!
