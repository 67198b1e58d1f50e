//! The serializer/parser round trip: a well-formed document with no
//! unset-sentinel ambiguity parses back, from its own serialized text, to
//! exactly itself.

use vstd::prelude::*;
use crate::text::{dec_digits, dec_value, lemma_dec_round_trip};
use crate::model::{NicV, NameserversV, BridgeV, DocV, unique_names};
use crate::codec::{
    spaces, lemma_spaces, key_line, kv_line, item_line, parse_kv, parse_item, parse_name_line,
    valid_name, valid_value, unlines, to_lines, lemma_to_lines_unlines, bool_chars, item_lines,
    opt_list_lines, ns_block_lines, nic_lines, eth_lines, bridge_body_lines, bridge_lines,
    doc_lines, ser_doc, p_items, p_opt_list, p_req_list, p_opt_kv, p_bool, p_ns_block, p_nic,
    p_eths, p_bridge, p_bridges, parse_lines, parse_doc_spec, kw_network, kw_version, kw_renderer,
    kw_ethernets, kw_bridges, kw_addresses, kw_search, kw_dhcp4, kw_gateway4, kw_nameservers,
    kw_optional, kw_interfaces, kw_true, kw_false,
};

verus! {

/// Some position before `ind` holds a character other than a space.
pub open spec fn nonspace_before(l: Seq<char>, ind: nat) -> bool {
    exists|j: int| 0 <= j < ind && j < l.len() && l[j] != ' '
}

/// The line list ends at `j`, or its line there dedents below `ind`.
pub open spec fn blocked(ls: Seq<Seq<char>>, j: int, ind: nat) -> bool {
    j >= ls.len() || nonspace_before(ls[j], ind)
}

/// Every value of the list is serializable.
pub open spec fn wf_values(v: Seq<Seq<char>>) -> bool {
    forall|i: int| 0 <= i < v.len() ==> valid_value(#[trigger] v[i])
}

/// An optional list with no unset-sentinel ambiguity: absent, or non-empty
/// with serializable values.
pub open spec fn wf_opt_list(o: Option<Seq<Seq<char>>>) -> bool {
    match o {
        Some(l) => l.len() > 0 && wf_values(l),
        None => true,
    }
}

/// An unambiguous nameserver block.
pub open spec fn wf_ns(ns: NameserversV) -> bool {
    wf_opt_list(ns.addresses) && wf_opt_list(ns.search)
}

/// Unambiguous, serializable interface settings.
pub open spec fn wf_nic(n: NicV) -> bool {
    &&& wf_opt_list(n.addresses)
    &&& match n.gateway4 {
        Some(g) => valid_value(g),
        None => true,
    }
    &&& match n.nameservers {
        Some(ns) => wf_ns(ns) && (ns.addresses is Some || ns.search is Some),
        None => true,
    }
}

/// Unambiguous, serializable bridge settings.
pub open spec fn wf_bridge(b: BridgeV) -> bool {
    &&& wf_values(b.interfaces)
    &&& wf_values(b.addresses)
    &&& match b.gateway4 {
        Some(g) => valid_value(g),
        None => true,
    }
    &&& wf_ns(b.nameservers)
}

/// A document whose serialized form carries every distinction the document
/// makes: unique and serializable names, unambiguous settings, and no
/// optional list present but empty.
pub open spec fn wf_codec_doc(d: DocV) -> bool {
    &&& unique_names(d.ethernets)
    &&& match d.renderer {
        Some(r) => valid_value(r),
        None => true,
    }
    &&& forall|i: int|
        0 <= i < d.ethernets.len() ==> valid_name((#[trigger] d.ethernets[i]).0) && wf_nic(
            d.ethernets[i].1,
        )
    &&& match d.bridges {
        Some(bs) => unique_names(bs) && forall|i: int|
            0 <= i < bs.len() ==> valid_name((#[trigger] bs[i]).0) && wf_bridge(bs[i].1),
        None => true,
    }
}

/// A key/value line yields its value back.
proof fn lemma_kv_parse(ind: nat, key: Seq<char>, val: Seq<char>)
    ensures
        parse_kv(kv_line(ind, key, val), ind, key) == Some(val),
{
    lemma_spaces(ind);
    let pre = spaces(ind) + key + seq![':', ' '];
    let l = kv_line(ind, key, val);
    assert(l =~= pre + val);
    assert(l.subrange(0, pre.len() as int) =~= pre);
    assert(l.skip(pre.len() as int) =~= val);
}

/// An item line yields its value back.
proof fn lemma_item_parse(ind: nat, val: Seq<char>)
    ensures
        parse_item(item_line(ind, val), ind) == Some(val),
{
    lemma_spaces(ind);
    let pre = spaces(ind) + seq!['-', ' '];
    let l = item_line(ind, val);
    assert(l =~= pre + val);
    assert(l.subrange(0, pre.len() as int) =~= pre);
    assert(l.skip(pre.len() as int) =~= val);
}

/// A mapping-entry line yields its name back.
proof fn lemma_name_parse(ind: nat, name: Seq<char>)
    requires
        valid_name(name),
    ensures
        parse_name_line(key_line(ind, name), ind) == Some(name),
{
    lemma_spaces(ind);
    let l = key_line(ind, name);
    assert(l.len() == ind + name.len() + 1);
    assert(l.subrange(0, ind as int) =~= spaces(ind));
    assert(l[l.len() - 1] == ':');
    assert(l[ind as int] == name[0]);
    assert forall|k: int| ind <= k < l.len() - 1 implies l[k] != ':' by {
        assert(l[k] == name[k - ind]);
    }
    assert(l.subrange(ind as int, l.len() - 1) =~= name);
}

/// A dedented line fails every check at the deeper indent.
proof fn lemma_blocked_line(l: Seq<char>, ind: nat)
    requires
        nonspace_before(l, ind),
    ensures
        parse_item(l, ind) is None,
        parse_name_line(l, ind) is None,
        forall|key: Seq<char>| #[trigger] parse_kv(l, ind, key) is None,
        forall|key: Seq<char>| l != key_line(ind, key),
{
    lemma_spaces(ind);
    let j = choose|j: int| 0 <= j < ind && j < l.len() && l[j] != ' ';
    assert forall|key: Seq<char>| #[trigger] parse_kv(l, ind, key) is None by {
        let pre = spaces(ind) + key + seq![':', ' '];
        assert(pre[j] == ' ');
        if l.len() >= pre.len() && l.subrange(0, pre.len() as int) == pre {
            assert(l.subrange(0, pre.len() as int)[j] == l[j]);
        }
    }
    assert forall|key: Seq<char>| l != key_line(ind, key) by {
        if l == key_line(ind, key) {
            assert(l[j] == ' ');
        }
    }
    assert(parse_item(l, ind) is None) by {
        let pre = spaces(ind) + seq!['-', ' '];
        assert(pre[j] == ' ');
        if l.len() >= pre.len() && l.subrange(0, pre.len() as int) == pre {
            assert(l.subrange(0, pre.len() as int)[j] == l[j]);
        }
    }
    assert(parse_name_line(l, ind) is None) by {
        if l.len() >= ind + 2 && l.subrange(0, ind as int) == spaces(ind) {
            assert(l.subrange(0, ind as int)[j] == l[j]);
        }
    }
}

/// A line whose character at the indent is not the key's head fails the
/// key/value check and the key-line check for that key.
proof fn lemma_head_mismatch(l: Seq<char>, ind: nat, key: Seq<char>)
    requires
        ind < l.len(),
        key.len() > 0,
        l[ind as int] != key[0],
    ensures
        parse_kv(l, ind, key) is None,
        l != key_line(ind, key),
{
    lemma_spaces(ind);
    let pre = spaces(ind) + key + seq![':', ' '];
    assert(pre[ind as int] == key[0]);
    if l.len() >= pre.len() && l.subrange(0, pre.len() as int) == pre {
        assert(l.subrange(0, pre.len() as int)[ind as int] == l[ind as int]);
    }
    if l == key_line(ind, key) {
        assert(key_line(ind, key)[ind as int] == key[0]);
    }
}

/// The head characters of emitted lines.
proof fn lemma_line_heads(ind: nat, key: Seq<char>, val: Seq<char>)
    requires
        key.len() > 0,
    ensures
        key_line(ind, key).len() > ind,
        key_line(ind, key)[ind as int] == key[0],
        kv_line(ind, key, val).len() > ind,
        kv_line(ind, key, val)[ind as int] == key[0],
        item_line(ind, val).len() > ind,
        item_line(ind, val)[ind as int] == '-',
        nonspace_before(key_line(ind, key), ind + 1) || key[0] == ' ',
{
    lemma_spaces(ind);
    if key[0] != ' ' {
        assert(key_line(ind, key)[ind as int] != ' ');
    }
}

/// An emitted line with a non-space head at `ind` dedents below any deeper
/// indent.
proof fn lemma_nonspace_at(l: Seq<char>, ind: nat, deeper: nat)
    requires
        ind < deeper,
        ind < l.len(),
        l[ind as int] != ' ',
    ensures
        nonspace_before(l, deeper),
{
    assert(0 <= ind < deeper && ind < l.len() && l[ind as int] != ' ');
}

/// The shape of an item-line list.
proof fn lemma_item_lines_idx(ind: nat, v: Seq<Seq<char>>)
    ensures
        item_lines(ind, v).len() == v.len(),
        forall|k: int| 0 <= k < v.len() ==> item_lines(ind, v)[k] == item_line(ind, #[trigger] v[k]),
    decreases v.len(),
{
    if v.len() > 0 {
        lemma_item_lines_idx(ind, v.skip(1));
        assert forall|k: int| 0 <= k < v.len()
            implies item_lines(ind, v)[k] == item_line(ind, #[trigger] v[k]) by {
            if k > 0 {
                assert(item_lines(ind, v)[k] == item_lines(ind, v.skip(1))[k - 1]);
                assert(v.skip(1)[k - 1] == v[k]);
            }
        }
    }
}

/// Item lines parse back to their values and stop at the first dedent.
proof fn lemma_items_rt(ls: Seq<Seq<char>>, i: int, ind: nat, v: Seq<Seq<char>>)
    requires
        0 <= i,
        i + v.len() <= ls.len(),
        forall|k: int| 0 <= k < v.len() ==> #[trigger] ls[i + k] == item_line(ind, v[k]),
        blocked(ls, i + v.len(), ind),
    ensures
        p_items(ls, i, ind) == (v, i + v.len()),
    decreases v.len(),
{
    if v.len() == 0 {
        if i < ls.len() {
            lemma_blocked_line(ls[i], ind);
        }
        assert(p_items(ls, i, ind).0 =~= v);
    } else {
        assert(ls[i + 0] == item_line(ind, v[0]));
        lemma_item_parse(ind, v[0]);
        assert forall|k: int| 0 <= k < v.skip(1).len()
            implies #[trigger] ls[i + 1 + k] == item_line(ind, v.skip(1)[k]) by {
            assert(ls[i + (k + 1)] == item_line(ind, v[k + 1]));
            assert(v.skip(1)[k] == v[k + 1]);
        }
        lemma_items_rt(ls, i + 1, ind, v.skip(1));
        assert(p_items(ls, i, ind).0 =~= seq![v[0]] + v.skip(1));
        assert(seq![v[0]] + v.skip(1) =~= v);
    }
}

/// An optional list field parses back: the key and its items when present
/// and non-empty, nothing otherwise.
proof fn lemma_opt_list_rt(
    ls: Seq<Seq<char>>,
    i: int,
    kind: nat,
    key: Seq<char>,
    iind: nat,
    o: Option<Seq<Seq<char>>>,
)
    requires
        0 <= i,
        wf_opt_list(o),
        kind < iind,
        i + opt_list_lines(kind, key, iind, o).len() <= ls.len(),
        forall|k: int|
            0 <= k < opt_list_lines(kind, key, iind, o).len() ==> #[trigger] ls[i + k]
                == opt_list_lines(kind, key, iind, o)[k],
        o is Some ==> blocked(ls, i + opt_list_lines(kind, key, iind, o).len(), iind),
        o is None ==> (i >= ls.len() || ls[i] != key_line(kind, key)),
    ensures
        p_opt_list(ls, i, kind, key, iind) == Some(
            (o, i + opt_list_lines(kind, key, iind, o).len()),
        ),
{
    match o {
        Some(lst) => {
            let lines = opt_list_lines(kind, key, iind, o);
            lemma_item_lines_idx(iind, lst);
            assert(lines == seq![key_line(kind, key)] + item_lines(iind, lst));
            assert(ls[i + 0] == key_line(kind, key));
            assert forall|k: int| 0 <= k < lst.len()
                implies #[trigger] ls[i + 1 + k] == item_line(iind, lst[k]) by {
                assert(ls[i + (k + 1)] == lines[k + 1]);
                assert(lines[k + 1] == item_lines(iind, lst)[k]);
            }
            lemma_items_rt(ls, i + 1, iind, lst);
        },
        None => {
            if i < ls.len() {
                assert(ls[i] != key_line(kind, key));
            }
        },
    }
}

/// A required list field parses back: the key and however many items.
proof fn lemma_req_list_rt(
    ls: Seq<Seq<char>>,
    i: int,
    kind: nat,
    key: Seq<char>,
    iind: nat,
    lst: Seq<Seq<char>>,
)
    requires
        0 <= i,
        kind < iind,
        i + 1 + lst.len() <= ls.len(),
        ls[i] == key_line(kind, key),
        forall|k: int| 0 <= k < lst.len() ==> #[trigger] ls[i + 1 + k] == item_line(iind, lst[k]),
        blocked(ls, i + 1 + lst.len(), iind),
    ensures
        p_req_list(ls, i, kind, key, iind) == Some((lst, i + 1 + lst.len())),
{
    lemma_items_rt(ls, i + 1, iind, lst);
}

/// A nameserver block parses back to its two role lists. The caller
/// guarantees that the line after the block is no role key and no item.
proof fn lemma_ns_block_rt(ls: Seq<Seq<char>>, i: int, ns: NameserversV)
    requires
        0 <= i,
        wf_ns(ns),
        i + ns_block_lines(ns).len() <= ls.len(),
        forall|k: int|
            0 <= k < ns_block_lines(ns).len() ==> #[trigger] ls[i + k] == ns_block_lines(ns)[k],
        blocked(ls, i + ns_block_lines(ns).len(), 8),
    ensures
        p_ns_block(ls, i) == Some((ns, i + ns_block_lines(ns).len())),
{
    let la = opt_list_lines(8, kw_addresses(), 10, ns.addresses);
    let lb = opt_list_lines(8, kw_search(), 10, ns.search);
    assert(ns_block_lines(ns) == la + lb);
    let i1 = i + la.len();
    let end = i1 + lb.len();
    assert forall|k: int| 0 <= k < la.len() implies #[trigger] ls[i + k] == la[k] by {
        assert(ls[i + k] == ns_block_lines(ns)[k]);
    }
    assert forall|k: int| 0 <= k < lb.len() implies #[trigger] ls[i1 + k] == lb[k] by {
        assert(ls[i + (la.len() + k)] == ns_block_lines(ns)[la.len() + k]);
    }
    assert(kw_search()[0] == 's');
    assert(kw_addresses()[0] == 'a');
    // after the address list: the search key, or the block's end
    if ns.addresses is Some {
        assert(blocked(ls, i1, 10)) by {
            if lb.len() > 0 {
                assert(ls[i1] == lb[0]);
                assert(lb[0] == key_line(8, kw_search()));
                lemma_line_heads(8, kw_search(), Seq::empty());
                lemma_nonspace_at(ls[i1], 8, 10);
            } else {
                assert(blocked(ls, end, 8));
                if i1 < ls.len() {
                    let j = choose|j: int| 0 <= j < 8 && j < ls[i1].len() && ls[i1][j] != ' ';
                    assert(nonspace_before(ls[i1], 10));
                }
            }
        }
    } else {
        assert(i1 == i);
        if i < ls.len() {
            assert(ls[i] != key_line(8, kw_addresses())) by {
                if lb.len() > 0 {
                    assert(ls[i] == key_line(8, kw_search()));
                    lemma_line_heads(8, kw_search(), Seq::empty());
                    lemma_head_mismatch(ls[i], 8, kw_addresses());
                } else {
                    lemma_blocked_line(ls[i], 8);
                }
            }
        }
    }
    lemma_opt_list_rt(ls, i, 8, kw_addresses(), 10, ns.addresses);
    // after the search list: the block's end
    if ns.search is Some {
        assert(blocked(ls, end, 10)) by {
            if end < ls.len() {
                let j = choose|j: int| 0 <= j < 8 && j < ls[end].len() && ls[end][j] != ' ';
                assert(nonspace_before(ls[end], 10));
            }
        }
    } else {
        if i1 < ls.len() && i1 == end {
            assert(ls[i1] != key_line(8, kw_search())) by {
                lemma_blocked_line(ls[i1], 8);
            }
        }
    }
    lemma_opt_list_rt(ls, i1, 8, kw_search(), 10, ns.search);
}

/// Dedenting below a shallow indent dedents below any deeper one.
proof fn lemma_nonspace_mono(l: Seq<char>, a: nat, b: nat)
    requires
        a <= b,
        nonspace_before(l, a),
    ensures
        nonspace_before(l, b),
{
    let j = choose|j: int| 0 <= j < a && j < l.len() && l[j] != ' ';
    assert(0 <= j < b && j < l.len() && l[j] != ' ');
}

/// One interface's settings lines parse back to the settings. The caller
/// guarantees that the following line dedents below the field indent.
#[verifier::rlimit(100)]
proof fn lemma_nic_rt(ls: Seq<Seq<char>>, i: int, nv: NicV)
    requires
        0 <= i,
        wf_nic(nv),
        i + nic_lines(nv).len() <= ls.len(),
        forall|k: int|
            0 <= k < nic_lines(nv).len() ==> #[trigger] ls[i + k] == nic_lines(nv)[k],
        blocked(ls, i + nic_lines(nv).len(), 6),
    ensures
        p_nic(ls, i) == Some((nv, i + nic_lines(nv).len())),
{
    let la = opt_list_lines(6, kw_addresses(), 8, nv.addresses);
    let lb = match nv.dhcp4 {
        Some(b) => seq![kv_line(6, kw_dhcp4(), bool_chars(b))],
        None => Seq::<Seq<char>>::empty(),
    };
    let lc = match nv.gateway4 {
        Some(g) => seq![kv_line(6, kw_gateway4(), g)],
        None => Seq::<Seq<char>>::empty(),
    };
    let ld = match nv.nameservers {
        Some(ns) => if ns_block_lines(ns).len() == 0 {
            Seq::<Seq<char>>::empty()
        } else {
            seq![key_line(6, kw_nameservers())] + ns_block_lines(ns)
        },
        None => Seq::<Seq<char>>::empty(),
    };
    let le = match nv.optional {
        Some(b) => seq![kv_line(6, kw_optional(), bool_chars(b))],
        None => Seq::<Seq<char>>::empty(),
    };
    assert(nic_lines(nv) == la + lb + lc + ld + le);
    let i1 = i + la.len();
    let i2 = i1 + lb.len();
    let i3 = i2 + lc.len();
    let i4 = i3 + ld.len();
    let end = i4 + le.len();
    assert(end == i + nic_lines(nv).len());
    assert(kw_addresses()[0] == 'a' && kw_dhcp4()[0] == 'd' && kw_gateway4()[0] == 'g'
        && kw_nameservers()[0] == 'n' && kw_optional()[0] == 'o');
    // the heads of the four field groups after the address list
    assert(lb.len() > 0 ==> ls[i + la.len()] == nic_lines(nv)[la.len() as int]);
    assert(lc.len() > 0 ==> ls[i + (la.len() + lb.len())] == nic_lines(nv)[la.len() as int + lb.len()]);
    assert(ld.len() > 0 ==> ls[i + (la.len() + lb.len() + lc.len())] == nic_lines(nv)[la.len() as int
        + lb.len() + lc.len()]);
    assert(le.len() > 0 ==> ls[i + (la.len() + lb.len() + lc.len() + ld.len())] == nic_lines(
        nv,
    )[la.len() as int + lb.len() + lc.len() + ld.len()]);
    assert(lb.len() > 0 ==> ls[i1] == kv_line(6, kw_dhcp4(), bool_chars(nv.dhcp4->Some_0)));
    assert(lc.len() > 0 ==> ls[i2] == kv_line(6, kw_gateway4(), nv.gateway4->Some_0));
    assert(ld.len() > 0 ==> ls[i3] == key_line(6, kw_nameservers()));
    assert(le.len() > 0 ==> ls[i4] == kv_line(6, kw_optional(), bool_chars(nv.optional->Some_0)));
    // what stands right after the address list blocks deeper items and is
    // no address key line
    assert(blocked(ls, i1, 8) && (i1 < ls.len() ==> ls[i1] != key_line(6, kw_addresses())) && (
    i1 < ls.len() ==> parse_kv(ls[i1], 6, kw_addresses()) is None)) by {
        if lb.len() > 0 {
            lemma_line_heads(6, kw_dhcp4(), bool_chars(nv.dhcp4->Some_0));
            lemma_nonspace_at(ls[i1], 6, 8);
            lemma_head_mismatch(ls[i1], 6, kw_addresses());
        } else if lc.len() > 0 {
            lemma_line_heads(6, kw_gateway4(), nv.gateway4->Some_0);
            lemma_nonspace_at(ls[i1], 6, 8);
            lemma_head_mismatch(ls[i1], 6, kw_addresses());
        } else if ld.len() > 0 {
            lemma_line_heads(6, kw_nameservers(), Seq::empty());
            lemma_nonspace_at(ls[i1], 6, 8);
            lemma_head_mismatch(ls[i1], 6, kw_addresses());
        } else if le.len() > 0 {
            lemma_line_heads(6, kw_optional(), bool_chars(nv.optional->Some_0));
            lemma_nonspace_at(ls[i1], 6, 8);
            lemma_head_mismatch(ls[i1], 6, kw_addresses());
        } else {
            assert(i1 == end);
            if i1 < ls.len() {
                lemma_nonspace_mono(ls[i1], 6, 8);
                lemma_blocked_line(ls[i1], 6);
            }
        }
    }
    assert forall|k: int| 0 <= k < la.len() implies #[trigger] ls[i + k] == la[k] by {
        assert(ls[i + k] == nic_lines(nv)[k]);
    }
    lemma_opt_list_rt(ls, i, 6, kw_addresses(), 8, nv.addresses);
    assert(p_opt_list(ls, i, 6, kw_addresses(), 8) == Some((nv.addresses, i1)));
    // the dhcp field
    assert((lb.len() == 0 && i1 < ls.len()) ==> parse_kv(ls[i1], 6, kw_dhcp4()) is None) by {
        if lb.len() == 0 && i1 < ls.len() {
            if lc.len() > 0 {
                lemma_line_heads(6, kw_gateway4(), nv.gateway4->Some_0);
                lemma_head_mismatch(ls[i1], 6, kw_dhcp4());
            } else if ld.len() > 0 {
                lemma_line_heads(6, kw_nameservers(), Seq::empty());
                lemma_head_mismatch(ls[i1], 6, kw_dhcp4());
            } else if le.len() > 0 {
                lemma_line_heads(6, kw_optional(), bool_chars(nv.optional->Some_0));
                lemma_head_mismatch(ls[i1], 6, kw_dhcp4());
            } else {
                lemma_blocked_line(ls[i1], 6);
            }
        }
    }
    if lb.len() > 0 {
        assert(ls[i + (la.len() + 0)] == nic_lines(nv)[la.len() as int + 0]);
        lemma_kv_parse(6, kw_dhcp4(), bool_chars(nv.dhcp4->Some_0));
        assert(kw_true() != kw_false()) by {
            assert(kw_true()[0] == 't' && kw_false()[0] == 'f');
        }
        assert(p_bool(bool_chars(nv.dhcp4->Some_0)) == Some(nv.dhcp4->Some_0));
    }
    assert(p_opt_kv(ls, i1, 6, kw_dhcp4()) == (
        match nv.dhcp4 {
            Some(b) => Some(bool_chars(b)),
            None => None,
        },
        i2,
    ));
    // the gateway field
    assert((lc.len() == 0 && i2 < ls.len()) ==> parse_kv(ls[i2], 6, kw_gateway4()) is None) by {
        if lc.len() == 0 && i2 < ls.len() {
            if ld.len() > 0 {
                lemma_line_heads(6, kw_nameservers(), Seq::empty());
                lemma_head_mismatch(ls[i2], 6, kw_gateway4());
            } else if le.len() > 0 {
                lemma_line_heads(6, kw_optional(), bool_chars(nv.optional->Some_0));
                lemma_head_mismatch(ls[i2], 6, kw_gateway4());
            } else {
                lemma_blocked_line(ls[i2], 6);
            }
        }
    }
    if lc.len() > 0 {
        assert(ls[i + (la.len() + lb.len() + 0)] == nic_lines(nv)[la.len() as int + lb.len() + 0]);
        lemma_kv_parse(6, kw_gateway4(), nv.gateway4->Some_0);
    }
    assert(p_opt_kv(ls, i2, 6, kw_gateway4()) == (nv.gateway4, i3));
    // the nameserver block
    assert((ld.len() == 0 && i3 < ls.len()) ==> ls[i3] != key_line(6, kw_nameservers())) by {
        if ld.len() == 0 && i3 < ls.len() {
            if le.len() > 0 {
                lemma_line_heads(6, kw_optional(), bool_chars(nv.optional->Some_0));
                lemma_head_mismatch(ls[i3], 6, kw_nameservers());
            } else {
                lemma_blocked_line(ls[i3], 6);
            }
        }
    }
    // the optional flag's check, shared by both branches below
    assert((le.len() == 0 && i4 < ls.len()) ==> parse_kv(ls[i4], 6, kw_optional()) is None) by {
        if le.len() == 0 && i4 < ls.len() {
            lemma_blocked_line(ls[i4], 6);
        }
    }
    if le.len() > 0 {
        assert(ls[i + (la.len() + lb.len() + lc.len() + ld.len() + 0)] == nic_lines(nv)[la.len() as int
            + lb.len() + lc.len() + ld.len() + 0]);
        lemma_kv_parse(6, kw_optional(), bool_chars(nv.optional->Some_0));
        assert(kw_true() != kw_false()) by {
            assert(kw_true()[0] == 't' && kw_false()[0] == 'f');
        }
        assert(p_bool(bool_chars(nv.optional->Some_0)) == Some(nv.optional->Some_0));
    }
    assert(p_opt_kv(ls, i4, 6, kw_optional()) == (
        match nv.optional {
            Some(b) => Some(bool_chars(b)),
            None => None,
        },
        end,
    ));
    if ld.len() > 0 {
        let ns = nv.nameservers->Some_0;
        assert(ld == seq![key_line(6, kw_nameservers())] + ns_block_lines(ns));
        assert forall|k: int| 0 <= k < ns_block_lines(ns).len()
            implies #[trigger] ls[i3 + 1 + k] == ns_block_lines(ns)[k] by {
            assert(ls[i + (la.len() + lb.len() + lc.len() + 1 + k)] == nic_lines(nv)[la.len()
                + lb.len() + lc.len() + 1 + k]);
            assert(nic_lines(nv)[la.len() + lb.len() + lc.len() + 1 + k] == ld[1 + k]);
        }
        assert(blocked(ls, i4, 8)) by {
            if le.len() > 0 {
                lemma_line_heads(6, kw_optional(), bool_chars(nv.optional->Some_0));
                lemma_nonspace_at(ls[i4], 6, 8);
            } else if i4 < ls.len() {
                lemma_nonspace_mono(ls[i4], 6, 8);
            }
        }
        lemma_ns_block_rt(ls, i3 + 1, ns);
        assert(p_ns_block(ls, i3 + 1) == Some((ns, i4)));
        assert(ns.addresses is Some || ns.search is Some);
    } else {
        if nv.nameservers is Some {
            // a present block with both role lists absent would be ambiguous
            let ns = nv.nameservers->Some_0;
            assert(ns.addresses is Some || ns.search is Some);
            assert(ns_block_lines(ns).len() > 0) by {
                if ns.addresses is Some {
                    assert(opt_list_lines(8, kw_addresses(), 10, ns.addresses).len() > 0);
                } else {
                    assert(opt_list_lines(8, kw_search(), 10, ns.search).len() > 0);
                }
            }
            assert(false);
        }
    }
    assert(p_nic(ls, i) == Some((nv, end))) by {
        assert(nv == (NicV {
            addresses: nv.addresses,
            dhcp4: nv.dhcp4,
            gateway4: nv.gateway4,
            nameservers: nv.nameservers,
            optional: nv.optional,
        }));
    }
}

/// The interface mapping's lines parse back to its entries, in order.
proof fn lemma_eths_rt(ls: Seq<Seq<char>>, i: int, s: Seq<(Seq<char>, NicV)>)
    requires
        0 <= i,
        i + eth_lines(s).len() <= ls.len(),
        forall|k: int| 0 <= k < eth_lines(s).len() ==> #[trigger] ls[i + k] == eth_lines(s)[k],
        forall|k: int| 0 <= k < s.len() ==> valid_name((#[trigger] s[k]).0) && wf_nic(s[k].1),
        blocked(ls, i + eth_lines(s).len(), 4),
    ensures
        p_eths(ls, i) == Some((s, i + eth_lines(s).len())),
    decreases s.len(),
{
    if s.len() == 0 {
        if i < ls.len() {
            lemma_blocked_line(ls[i], 4);
        }
        assert(p_eths(ls, i)->Some_0.0 =~= s);
    } else {
        let name0 = s[0].0;
        let nic0 = s[0].1;
        let body = nic_lines(nic0);
        let tail = eth_lines(s.skip(1));
        assert(eth_lines(s) == seq![key_line(4, name0)] + body + tail);
        let j = i + 1 + body.len();
        let end = j + tail.len();
        assert(ls[i + 0] == key_line(4, name0));
        lemma_name_parse(4, name0);
        assert forall|k: int| 0 <= k < body.len()
            implies #[trigger] ls[i + 1 + k] == body[k] by {
            assert(ls[i + (1 + k)] == eth_lines(s)[1 + k]);
        }
        assert(blocked(ls, j, 6)) by {
            if tail.len() > 0 {
                assert(ls[i + (1 + body.len())] == eth_lines(s)[1 + body.len() as int]);
                assert(tail[0] == key_line(4, s.skip(1)[0].0));
                assert(valid_name(s[1].0));
                lemma_line_heads(4, s[1].0, Seq::empty());
                lemma_nonspace_at(ls[j], 4, 6);
            } else if j < ls.len() {
                lemma_nonspace_mono(ls[j], 4, 6);
            }
        }
        lemma_nic_rt(ls, i + 1, nic0);
        assert forall|k: int| 0 <= k < tail.len()
            implies #[trigger] ls[j + k] == tail[k] by {
            assert(ls[i + (1 + body.len() + k)] == eth_lines(s)[1 + body.len() + k]);
        }
        assert forall|k: int| 0 <= k < s.skip(1).len()
            implies valid_name((#[trigger] s.skip(1)[k]).0) && wf_nic(s.skip(1)[k].1) by {
            assert(s.skip(1)[k] == s[k + 1]);
        }
        lemma_eths_rt(ls, j, s.skip(1));
        assert(p_eths(ls, i)->Some_0.0 =~= seq![(name0, nic0)] + s.skip(1));
        assert(seq![(name0, nic0)] + s.skip(1) =~= s);
    }
}

/// One bridge's body lines parse back to its settings.
#[verifier::rlimit(100)]
proof fn lemma_bridge_rt(ls: Seq<Seq<char>>, i: int, bv: BridgeV)
    requires
        0 <= i,
        wf_bridge(bv),
        i + bridge_body_lines(bv).len() <= ls.len(),
        forall|k: int|
            0 <= k < bridge_body_lines(bv).len() ==> #[trigger] ls[i + k] == bridge_body_lines(
                bv,
            )[k],
        blocked(ls, i + bridge_body_lines(bv).len(), 6),
    ensures
        p_bridge(ls, i) == Some((bv, i + bridge_body_lines(bv).len())),
{
    let p1 = seq![key_line(6, kw_interfaces())];
    let p2 = item_lines(8, bv.interfaces);
    let p3 = seq![key_line(6, kw_addresses())];
    let p4 = item_lines(8, bv.addresses);
    let p5 = match bv.gateway4 {
        Some(g) => seq![kv_line(6, kw_gateway4(), g)],
        None => Seq::<Seq<char>>::empty(),
    };
    let p6 = seq![key_line(6, kw_nameservers())];
    let p7 = ns_block_lines(bv.nameservers);
    assert(bridge_body_lines(bv) == p1 + p2 + p3 + p4 + p5 + p6 + p7);
    lemma_item_lines_idx(8, bv.interfaces);
    lemma_item_lines_idx(8, bv.addresses);
    let j1 = i + 1;
    let j2 = j1 + p2.len();
    let j3 = j2 + 1;
    let j4 = j3 + p4.len();
    let j5 = j4 + p5.len();
    let j6 = j5 + 1;
    let end = j6 + p7.len();
    assert(end == i + bridge_body_lines(bv).len());
    assert(kw_interfaces()[0] == 'i' && kw_addresses()[0] == 'a' && kw_gateway4()[0] == 'g'
        && kw_nameservers()[0] == 'n');
    assert(ls[i + 0] == key_line(6, kw_interfaces()));
    assert forall|k: int| 0 <= k < p2.len()
        implies #[trigger] ls[j1 + k] == item_line(8, bv.interfaces[k]) by {
        assert(ls[i + (1 + k)] == bridge_body_lines(bv)[1 + k]);
    }
    assert(ls[i + (1 + p2.len())] == bridge_body_lines(bv)[1 + p2.len() as int]);
    assert(ls[j2] == key_line(6, kw_addresses()));
    assert(blocked(ls, j2, 8)) by {
        lemma_line_heads(6, kw_addresses(), Seq::empty());
        lemma_nonspace_at(ls[j2], 6, 8);
    }
    lemma_req_list_rt(ls, i, 6, kw_interfaces(), 8, bv.interfaces);
    assert forall|k: int| 0 <= k < p4.len()
        implies #[trigger] ls[j3 + k] == item_line(8, bv.addresses[k]) by {
        assert(ls[i + (2 + p2.len() + k)] == bridge_body_lines(bv)[2 + p2.len() + k]);
    }
    assert(p5.len() > 0 ==> ls[i + (2 + p2.len() + p4.len())] == bridge_body_lines(bv)[2
        + p2.len() as int + p4.len()]);
    assert(ls[i + (2 + p2.len() + p4.len() + p5.len())] == bridge_body_lines(bv)[2 + p2.len() as int
        + p4.len() + p5.len()]);
    assert(ls[j5] == key_line(6, kw_nameservers()));
    assert(blocked(ls, j4, 8)) by {
        if p5.len() > 0 {
            assert(ls[j4] == kv_line(6, kw_gateway4(), bv.gateway4->Some_0));
            lemma_line_heads(6, kw_gateway4(), bv.gateway4->Some_0);
            lemma_nonspace_at(ls[j4], 6, 8);
        } else {
            assert(j4 == j5);
            lemma_line_heads(6, kw_nameservers(), Seq::empty());
            lemma_nonspace_at(ls[j4], 6, 8);
        }
    }
    lemma_req_list_rt(ls, j2, 6, kw_addresses(), 8, bv.addresses);
    // the optional gateway line
    if p5.len() > 0 {
        assert(ls[j4] == kv_line(6, kw_gateway4(), bv.gateway4->Some_0));
        lemma_kv_parse(6, kw_gateway4(), bv.gateway4->Some_0);
    } else {
        lemma_line_heads(6, kw_nameservers(), Seq::empty());
        lemma_head_mismatch(ls[j4], 6, kw_gateway4());
    }
    assert(p_opt_kv(ls, j4, 6, kw_gateway4()) == (bv.gateway4, j5));
    // the nameserver block
    assert forall|k: int| 0 <= k < p7.len()
        implies #[trigger] ls[j6 + k] == ns_block_lines(bv.nameservers)[k] by {
        assert(ls[i + (3 + p2.len() + p4.len() + p5.len() + k)] == bridge_body_lines(bv)[3
            + p2.len() + p4.len() + p5.len() + k]);
    }
    assert(blocked(ls, end, 8)) by {
        if end < ls.len() {
            lemma_nonspace_mono(ls[end], 6, 8);
        }
    }
    lemma_ns_block_rt(ls, j6, bv.nameservers);
    assert(p_bridge(ls, i) == Some((bv, end))) by {
        assert(bv == (BridgeV {
            interfaces: bv.interfaces,
            addresses: bv.addresses,
            gateway4: bv.gateway4,
            nameservers: bv.nameservers,
        }));
    }
}

/// The bridge mapping's lines parse back to its entries, in order.
proof fn lemma_bridges_rt(ls: Seq<Seq<char>>, i: int, s: Seq<(Seq<char>, BridgeV)>)
    requires
        0 <= i,
        i + bridge_lines(s).len() <= ls.len(),
        forall|k: int|
            0 <= k < bridge_lines(s).len() ==> #[trigger] ls[i + k] == bridge_lines(s)[k],
        forall|k: int| 0 <= k < s.len() ==> valid_name((#[trigger] s[k]).0) && wf_bridge(s[k].1),
        blocked(ls, i + bridge_lines(s).len(), 4),
    ensures
        p_bridges(ls, i) == Some((s, i + bridge_lines(s).len())),
    decreases s.len(),
{
    if s.len() == 0 {
        if i < ls.len() {
            lemma_blocked_line(ls[i], 4);
        }
        assert(p_bridges(ls, i)->Some_0.0 =~= s);
    } else {
        let name0 = s[0].0;
        let b0 = s[0].1;
        let body = bridge_body_lines(b0);
        let tail = bridge_lines(s.skip(1));
        assert(bridge_lines(s) == seq![key_line(4, name0)] + body + tail);
        let j = i + 1 + body.len();
        assert(ls[i + 0] == key_line(4, name0));
        lemma_name_parse(4, name0);
        assert forall|k: int| 0 <= k < body.len()
            implies #[trigger] ls[i + 1 + k] == body[k] by {
            assert(ls[i + (1 + k)] == bridge_lines(s)[1 + k]);
        }
        assert(blocked(ls, j, 6)) by {
            if tail.len() > 0 {
                assert(ls[i + (1 + body.len())] == bridge_lines(s)[1 + body.len() as int]);
                assert(tail[0] == key_line(4, s.skip(1)[0].0));
                assert(valid_name(s[1].0));
                lemma_line_heads(4, s[1].0, Seq::empty());
                lemma_nonspace_at(ls[j], 4, 6);
            } else if j < ls.len() {
                lemma_nonspace_mono(ls[j], 4, 6);
            }
        }
        lemma_bridge_rt(ls, i + 1, b0);
        assert forall|k: int| 0 <= k < tail.len()
            implies #[trigger] ls[j + k] == tail[k] by {
            assert(ls[i + (1 + body.len() + k)] == bridge_lines(s)[1 + body.len() + k]);
        }
        assert forall|k: int| 0 <= k < s.skip(1).len()
            implies valid_name((#[trigger] s.skip(1)[k]).0) && wf_bridge(s.skip(1)[k].1) by {
            assert(s.skip(1)[k] == s[k + 1]);
        }
        lemma_bridges_rt(ls, j, s.skip(1));
        assert(p_bridges(ls, i)->Some_0.0 =~= seq![(name0, b0)] + s.skip(1));
        assert(seq![(name0, b0)] + s.skip(1) =~= s);
    }
}

/// Every line list of a production is free of newlines.
pub open spec fn lines_no_nl(ls: Seq<Seq<char>>) -> bool {
    forall|i: int| 0 <= i < ls.len() ==> !(#[trigger] ls[i]).contains('\n')
}

/// The schema words hold no newline.
proof fn lemma_kw_valid()
    ensures
        valid_value(kw_network()),
        valid_value(kw_version()),
        valid_value(kw_renderer()),
        valid_value(kw_ethernets()),
        valid_value(kw_bridges()),
        valid_value(kw_addresses()),
        valid_value(kw_search()),
        valid_value(kw_dhcp4()),
        valid_value(kw_gateway4()),
        valid_value(kw_nameservers()),
        valid_value(kw_optional()),
        valid_value(kw_interfaces()),
        valid_value(kw_true()),
        valid_value(kw_false()),
{
}

/// Emitted lines built from newline-free pieces hold no newline.
proof fn lemma_ctor_no_nl(ind: nat, key: Seq<char>, val: Seq<char>)
    requires
        valid_value(key),
        valid_value(val),
    ensures
        !key_line(ind, key).contains('\n'),
        !kv_line(ind, key, val).contains('\n'),
        !item_line(ind, val).contains('\n'),
{
    lemma_spaces(ind);
    assert(!key_line(ind, key).contains('\n')) by {
        if key_line(ind, key).contains('\n') {
            let m = choose|m: int|
                0 <= m < key_line(ind, key).len() && key_line(ind, key)[m] == '\n';
        }
    }
    assert(!kv_line(ind, key, val).contains('\n')) by {
        if kv_line(ind, key, val).contains('\n') {
            let m = choose|m: int|
                0 <= m < kv_line(ind, key, val).len() && kv_line(ind, key, val)[m] == '\n';
        }
    }
    assert(!item_line(ind, val).contains('\n')) by {
        if item_line(ind, val).contains('\n') {
            let m = choose|m: int|
                0 <= m < item_line(ind, val).len() && item_line(ind, val)[m] == '\n';
        }
    }
}

proof fn lemma_items_no_nl(ind: nat, v: Seq<Seq<char>>)
    requires
        wf_values(v),
    ensures
        lines_no_nl(item_lines(ind, v)),
{
    lemma_item_lines_idx(ind, v);
    assert forall|i: int| 0 <= i < item_lines(ind, v).len()
        implies !(#[trigger] item_lines(ind, v)[i]).contains('\n') by {
        lemma_kw_valid();
        lemma_ctor_no_nl(ind, kw_network(), v[i]);
    }
}

proof fn lemma_concat_no_nl(a: Seq<Seq<char>>, b: Seq<Seq<char>>)
    requires
        lines_no_nl(a),
        lines_no_nl(b),
    ensures
        lines_no_nl(a + b),
{
    assert forall|i: int| 0 <= i < (a + b).len()
        implies !(#[trigger] (a + b)[i]).contains('\n') by {
        if i < a.len() {
            assert((a + b)[i] == a[i]);
        } else {
            assert((a + b)[i] == b[i - a.len()]);
        }
    }
}

proof fn lemma_opt_list_no_nl(kind: nat, key: Seq<char>, iind: nat, o: Option<Seq<Seq<char>>>)
    requires
        valid_value(key),
        wf_opt_list(o),
    ensures
        lines_no_nl(opt_list_lines(kind, key, iind, o)),
{
    match o {
        Some(lst) => {
            if lst.len() > 0 {
                lemma_items_no_nl(iind, lst);
                lemma_ctor_no_nl(kind, key, Seq::empty());
                lemma_concat_no_nl(seq![key_line(kind, key)], item_lines(iind, lst));
            }
        },
        None => {},
    }
}

proof fn lemma_ns_no_nl(ns: NameserversV)
    requires
        wf_ns(ns),
    ensures
        lines_no_nl(ns_block_lines(ns)),
{
    lemma_kw_valid();
    lemma_opt_list_no_nl(8, kw_addresses(), 10, ns.addresses);
    lemma_opt_list_no_nl(8, kw_search(), 10, ns.search);
    lemma_concat_no_nl(
        opt_list_lines(8, kw_addresses(), 10, ns.addresses),
        opt_list_lines(8, kw_search(), 10, ns.search),
    );
}

proof fn lemma_nic_no_nl(nv: NicV)
    requires
        wf_nic(nv),
    ensures
        lines_no_nl(nic_lines(nv)),
{
    lemma_kw_valid();
    let la = opt_list_lines(6, kw_addresses(), 8, nv.addresses);
    let lb = match nv.dhcp4 {
        Some(b) => seq![kv_line(6, kw_dhcp4(), bool_chars(b))],
        None => Seq::<Seq<char>>::empty(),
    };
    let lc = match nv.gateway4 {
        Some(g) => seq![kv_line(6, kw_gateway4(), g)],
        None => Seq::<Seq<char>>::empty(),
    };
    let ld = match nv.nameservers {
        Some(ns) => if ns_block_lines(ns).len() == 0 {
            Seq::<Seq<char>>::empty()
        } else {
            seq![key_line(6, kw_nameservers())] + ns_block_lines(ns)
        },
        None => Seq::<Seq<char>>::empty(),
    };
    let le = match nv.optional {
        Some(b) => seq![kv_line(6, kw_optional(), bool_chars(b))],
        None => Seq::<Seq<char>>::empty(),
    };
    lemma_opt_list_no_nl(6, kw_addresses(), 8, nv.addresses);
    assert(lines_no_nl(lb)) by {
        if nv.dhcp4 is Some {
            lemma_ctor_no_nl(6, kw_dhcp4(), bool_chars(nv.dhcp4->Some_0));
        }
    }
    assert(lines_no_nl(lc)) by {
        if nv.gateway4 is Some {
            lemma_ctor_no_nl(6, kw_gateway4(), nv.gateway4->Some_0);
        }
    }
    assert(lines_no_nl(ld)) by {
        if nv.nameservers is Some {
            lemma_ns_no_nl(nv.nameservers->Some_0);
            lemma_ctor_no_nl(6, kw_nameservers(), Seq::empty());
            if ns_block_lines(nv.nameservers->Some_0).len() > 0 {
                lemma_concat_no_nl(
                    seq![key_line(6, kw_nameservers())],
                    ns_block_lines(nv.nameservers->Some_0),
                );
            }
        }
    }
    assert(lines_no_nl(le)) by {
        if nv.optional is Some {
            lemma_ctor_no_nl(6, kw_optional(), bool_chars(nv.optional->Some_0));
        }
    }
    lemma_concat_no_nl(la, lb);
    lemma_concat_no_nl(la + lb, lc);
    lemma_concat_no_nl(la + lb + lc, ld);
    lemma_concat_no_nl(la + lb + lc + ld, le);
    assert(nic_lines(nv) == la + lb + lc + ld + le);
}

proof fn lemma_eths_no_nl(s: Seq<(Seq<char>, NicV)>)
    requires
        forall|k: int| 0 <= k < s.len() ==> valid_name((#[trigger] s[k]).0) && wf_nic(s[k].1),
    ensures
        lines_no_nl(eth_lines(s)),
    decreases s.len(),
{
    if s.len() > 0 {
        lemma_ctor_no_nl(4, s[0].0, Seq::empty());
        lemma_nic_no_nl(s[0].1);
        assert forall|k: int| 0 <= k < s.skip(1).len()
            implies valid_name((#[trigger] s.skip(1)[k]).0) && wf_nic(s.skip(1)[k].1) by {
            assert(s.skip(1)[k] == s[k + 1]);
        }
        lemma_eths_no_nl(s.skip(1));
        lemma_concat_no_nl(seq![key_line(4, s[0].0)], nic_lines(s[0].1));
        lemma_concat_no_nl(seq![key_line(4, s[0].0)] + nic_lines(s[0].1), eth_lines(s.skip(1)));
    }
}

proof fn lemma_bridge_no_nl(b: BridgeV)
    requires
        wf_bridge(b),
    ensures
        lines_no_nl(bridge_body_lines(b)),
{
    lemma_kw_valid();
    let p1 = seq![key_line(6, kw_interfaces())];
    let p2 = item_lines(8, b.interfaces);
    let p3 = seq![key_line(6, kw_addresses())];
    let p4 = item_lines(8, b.addresses);
    let p5 = match b.gateway4 {
        Some(g) => seq![kv_line(6, kw_gateway4(), g)],
        None => Seq::<Seq<char>>::empty(),
    };
    let p6 = seq![key_line(6, kw_nameservers())];
    let p7 = ns_block_lines(b.nameservers);
    lemma_ctor_no_nl(6, kw_interfaces(), Seq::empty());
    lemma_ctor_no_nl(6, kw_addresses(), Seq::empty());
    lemma_ctor_no_nl(6, kw_nameservers(), Seq::empty());
    lemma_items_no_nl(8, b.interfaces);
    lemma_items_no_nl(8, b.addresses);
    assert(lines_no_nl(p5)) by {
        if b.gateway4 is Some {
            lemma_ctor_no_nl(6, kw_gateway4(), b.gateway4->Some_0);
        }
    }
    lemma_ns_no_nl(b.nameservers);
    lemma_concat_no_nl(p1, p2);
    lemma_concat_no_nl(p1 + p2, p3);
    lemma_concat_no_nl(p1 + p2 + p3, p4);
    lemma_concat_no_nl(p1 + p2 + p3 + p4, p5);
    lemma_concat_no_nl(p1 + p2 + p3 + p4 + p5, p6);
    lemma_concat_no_nl(p1 + p2 + p3 + p4 + p5 + p6, p7);
    assert(bridge_body_lines(b) == p1 + p2 + p3 + p4 + p5 + p6 + p7);
}

proof fn lemma_bridges_no_nl(s: Seq<(Seq<char>, BridgeV)>)
    requires
        forall|k: int| 0 <= k < s.len() ==> valid_name((#[trigger] s[k]).0) && wf_bridge(s[k].1),
    ensures
        lines_no_nl(bridge_lines(s)),
    decreases s.len(),
{
    if s.len() > 0 {
        lemma_ctor_no_nl(4, s[0].0, Seq::empty());
        lemma_bridge_no_nl(s[0].1);
        assert forall|k: int| 0 <= k < s.skip(1).len()
            implies valid_name((#[trigger] s.skip(1)[k]).0) && wf_bridge(s.skip(1)[k].1) by {
            assert(s.skip(1)[k] == s[k + 1]);
        }
        lemma_bridges_no_nl(s.skip(1));
        lemma_concat_no_nl(seq![key_line(4, s[0].0)], bridge_body_lines(s[0].1));
        lemma_concat_no_nl(
            seq![key_line(4, s[0].0)] + bridge_body_lines(s[0].1),
            bridge_lines(s.skip(1)),
        );
    }
}

/// The decimal digits hold no newline.
proof fn lemma_digits_no_nl(n: nat)
    ensures
        valid_value(dec_digits(n)),
{
    crate::text::lemma_dec_digits_all_digits(n);
    assert forall|k: int| 0 <= k < dec_digits(n).len()
        implies dec_digits(n)[k] != '\n' by {
        assert(crate::text::char_digit(dec_digits(n)[k]) < 10);
        if dec_digits(n)[k] == '\n' {
            assert(crate::text::char_digit('\n') == 10);
        }
    }
}

proof fn lemma_doc_no_nl(d: DocV)
    requires
        wf_codec_doc(d),
    ensures
        lines_no_nl(doc_lines(d)),
{
    lemma_kw_valid();
    let p1 = seq![key_line(0, kw_network())];
    let p2 = match d.version {
        Some(n) => seq![kv_line(2, kw_version(), dec_digits(n as nat))],
        None => Seq::<Seq<char>>::empty(),
    };
    let p3 = match d.renderer {
        Some(r) => seq![kv_line(2, kw_renderer(), r)],
        None => Seq::<Seq<char>>::empty(),
    };
    let p4 = seq![key_line(2, kw_ethernets())];
    let p5 = eth_lines(d.ethernets);
    let p6 = match d.bridges {
        Some(bs) => seq![key_line(2, kw_bridges())] + bridge_lines(bs),
        None => Seq::<Seq<char>>::empty(),
    };
    lemma_ctor_no_nl(0, kw_network(), Seq::empty());
    lemma_ctor_no_nl(2, kw_ethernets(), Seq::empty());
    assert(lines_no_nl(p2)) by {
        if d.version is Some {
            lemma_digits_no_nl(d.version->Some_0 as nat);
            lemma_ctor_no_nl(2, kw_version(), dec_digits(d.version->Some_0 as nat));
        }
    }
    assert(lines_no_nl(p3)) by {
        if d.renderer is Some {
            lemma_ctor_no_nl(2, kw_renderer(), d.renderer->Some_0);
        }
    }
    lemma_eths_no_nl(d.ethernets);
    assert(lines_no_nl(p6)) by {
        if d.bridges is Some {
            lemma_ctor_no_nl(2, kw_bridges(), Seq::empty());
            lemma_bridges_no_nl(d.bridges->Some_0);
            lemma_concat_no_nl(seq![key_line(2, kw_bridges())], bridge_lines(d.bridges->Some_0));
        }
    }
    lemma_concat_no_nl(p1, p2);
    lemma_concat_no_nl(p1 + p2, p3);
    lemma_concat_no_nl(p1 + p2 + p3, p4);
    lemma_concat_no_nl(p1 + p2 + p3 + p4, p5);
    lemma_concat_no_nl(p1 + p2 + p3 + p4 + p5, p6);
    assert(doc_lines(d) == p1 + p2 + p3 + p4 + p5 + p6);
}

/// The lines of a well-formed document with a bridge mapping parse back.
#[verifier::rlimit(100)]
proof fn lemma_parse_lines_rt_some(d: DocV)
    requires
        wf_codec_doc(d),
        d.bridges is Some,
    ensures
        parse_lines(doc_lines(d)) == Some(d),
{
    let ls = doc_lines(d);
    let p1 = seq![key_line(0, kw_network())];
    let p2 = match d.version {
        Some(n) => seq![kv_line(2, kw_version(), dec_digits(n as nat))],
        None => Seq::<Seq<char>>::empty(),
    };
    let p3 = match d.renderer {
        Some(r) => seq![kv_line(2, kw_renderer(), r)],
        None => Seq::<Seq<char>>::empty(),
    };
    let p4 = seq![key_line(2, kw_ethernets())];
    let p5 = eth_lines(d.ethernets);
    let p6 = match d.bridges {
        Some(bs) => seq![key_line(2, kw_bridges())] + bridge_lines(bs),
        None => Seq::<Seq<char>>::empty(),
    };
    assert(ls == p1 + p2 + p3 + p4 + p5 + p6);
    let i1 = 1 + p2.len() as int;
    let i2 = i1 + p3.len();
    let i3 = i2 + 1 + p5.len();
    let end = i3 + p6.len();
    assert(end == ls.len());
    assert(kw_version()[0] == 'v' && kw_renderer()[0] == 'r' && kw_ethernets()[0] == 'e'
        && kw_bridges()[0] == 'b' && kw_network()[0] == 'n');
    assert(ls[0] == key_line(0, kw_network()));
    assert(ls.len() >= 2);
    // the version line
    assert(p2.len() > 0 ==> ls[1] == kv_line(2, kw_version(), dec_digits(d.version->Some_0 as nat)));
    assert(p3.len() > 0 ==> ls[1 + p2.len() as int] == kv_line(2, kw_renderer(), d.renderer->Some_0));
    assert(ls[1 + p2.len() as int + p3.len()] == key_line(2, kw_ethernets()));
    if p2.len() > 0 {
        lemma_kv_parse(2, kw_version(), dec_digits(d.version->Some_0 as nat));
        lemma_dec_round_trip(d.version->Some_0 as nat);
    } else {
        if p3.len() > 0 {
            lemma_line_heads(2, kw_renderer(), d.renderer->Some_0);
            lemma_head_mismatch(ls[1], 2, kw_version());
        } else {
            lemma_line_heads(2, kw_ethernets(), Seq::empty());
            lemma_head_mismatch(ls[1], 2, kw_version());
        }
    }
    assert(p_opt_kv(ls, 1, 2, kw_version()) == (
        match d.version {
            Some(n) => Some(dec_digits(n as nat)),
            None => None,
        },
        i1,
    ));
    // the renderer line
    if p3.len() > 0 {
        lemma_kv_parse(2, kw_renderer(), d.renderer->Some_0);
    } else {
        lemma_line_heads(2, kw_ethernets(), Seq::empty());
        lemma_head_mismatch(ls[i1], 2, kw_renderer());
    }
    assert(p_opt_kv(ls, i1, 2, kw_renderer()) == (d.renderer, i2));
    // the interface mapping
    assert(ls[i2] == key_line(2, kw_ethernets()));
    assert forall|k: int| 0 <= k < p5.len() implies #[trigger] ls[i2 + 1 + k] == p5[k] by {
        assert(ls[1 + p2.len() as int + p3.len() + 1 + k] == p5[k]);
    }
    assert(blocked(ls, i3, 4)) by {
        if p6.len() > 0 {
            assert(ls[i3] == key_line(2, kw_bridges()));
            lemma_line_heads(2, kw_bridges(), Seq::empty());
            lemma_nonspace_at(ls[i3], 2, 4);
        }
    }
    lemma_eths_rt(ls, i2 + 1, d.ethernets);
    assert(p_eths(ls, i2 + 1) == Some((d.ethernets, i3)));
    // the bridge mapping
    let bs = d.bridges->Some_0;
    assert(p6 == seq![key_line(2, kw_bridges())] + bridge_lines(bs));
    assert(ls[i3] == key_line(2, kw_bridges()));
    assert forall|k: int| 0 <= k < bridge_lines(bs).len()
        implies #[trigger] ls[i3 + 1 + k] == bridge_lines(bs)[k] by {
        assert(p6[1 + k] == bridge_lines(bs)[k]);
        assert(ls[i3 + 1 + k] == p6[1 + k]);
    }
    assert(blocked(ls, end, 4));
    lemma_bridges_rt(ls, i3 + 1, bs);
    assert(p_bridges(ls, i3 + 1) == Some((bs, end)));
    assert(parse_lines(ls) == Some(d)) by {
        assert(d == (DocV {
            version: d.version,
            renderer: d.renderer,
            ethernets: d.ethernets,
            bridges: d.bridges,
        }));
    }
}

/// The lines of a well-formed document without a bridge mapping parse back.
#[verifier::rlimit(100)]
proof fn lemma_parse_lines_rt_none(d: DocV)
    requires
        wf_codec_doc(d),
        d.bridges is None,
    ensures
        parse_lines(doc_lines(d)) == Some(d),
{
    let ls = doc_lines(d);
    let p1 = seq![key_line(0, kw_network())];
    let p2 = match d.version {
        Some(n) => seq![kv_line(2, kw_version(), dec_digits(n as nat))],
        None => Seq::<Seq<char>>::empty(),
    };
    let p3 = match d.renderer {
        Some(r) => seq![kv_line(2, kw_renderer(), r)],
        None => Seq::<Seq<char>>::empty(),
    };
    let p4 = seq![key_line(2, kw_ethernets())];
    let p5 = eth_lines(d.ethernets);
    let p6 = match d.bridges {
        Some(bs) => seq![key_line(2, kw_bridges())] + bridge_lines(bs),
        None => Seq::<Seq<char>>::empty(),
    };
    assert(ls == p1 + p2 + p3 + p4 + p5 + p6);
    let i1 = 1 + p2.len() as int;
    let i2 = i1 + p3.len();
    let i3 = i2 + 1 + p5.len();
    let end = i3 + p6.len();
    assert(end == ls.len());
    assert(kw_version()[0] == 'v' && kw_renderer()[0] == 'r' && kw_ethernets()[0] == 'e'
        && kw_bridges()[0] == 'b' && kw_network()[0] == 'n');
    assert(ls[0] == key_line(0, kw_network()));
    assert(ls.len() >= 2);
    // the version line
    assert(p2.len() > 0 ==> ls[1] == kv_line(2, kw_version(), dec_digits(d.version->Some_0 as nat)));
    assert(p3.len() > 0 ==> ls[1 + p2.len() as int] == kv_line(2, kw_renderer(), d.renderer->Some_0));
    assert(ls[1 + p2.len() as int + p3.len()] == key_line(2, kw_ethernets()));
    if p2.len() > 0 {
        lemma_kv_parse(2, kw_version(), dec_digits(d.version->Some_0 as nat));
        lemma_dec_round_trip(d.version->Some_0 as nat);
    } else {
        if p3.len() > 0 {
            lemma_line_heads(2, kw_renderer(), d.renderer->Some_0);
            lemma_head_mismatch(ls[1], 2, kw_version());
        } else {
            lemma_line_heads(2, kw_ethernets(), Seq::empty());
            lemma_head_mismatch(ls[1], 2, kw_version());
        }
    }
    assert(p_opt_kv(ls, 1, 2, kw_version()) == (
        match d.version {
            Some(n) => Some(dec_digits(n as nat)),
            None => None,
        },
        i1,
    ));
    // the renderer line
    if p3.len() > 0 {
        lemma_kv_parse(2, kw_renderer(), d.renderer->Some_0);
    } else {
        lemma_line_heads(2, kw_ethernets(), Seq::empty());
        lemma_head_mismatch(ls[i1], 2, kw_renderer());
    }
    assert(p_opt_kv(ls, i1, 2, kw_renderer()) == (d.renderer, i2));
    // the interface mapping
    assert(ls[i2] == key_line(2, kw_ethernets()));
    assert forall|k: int| 0 <= k < p5.len() implies #[trigger] ls[i2 + 1 + k] == p5[k] by {
        assert(ls[1 + p2.len() as int + p3.len() + 1 + k] == p5[k]);
    }
    assert(blocked(ls, i3, 4)) by {
        if p6.len() > 0 {
            assert(ls[i3] == key_line(2, kw_bridges()));
            lemma_line_heads(2, kw_bridges(), Seq::empty());
            lemma_nonspace_at(ls[i3], 2, 4);
        }
    }
    lemma_eths_rt(ls, i2 + 1, d.ethernets);
    assert(p_eths(ls, i2 + 1) == Some((d.ethernets, i3)));
    // no bridge mapping: the document ends with the interfaces
    assert(i3 == ls.len());
    assert(parse_lines(ls) == Some(d)) by {
        assert(d == (DocV {
            version: d.version,
            renderer: d.renderer,
            ethernets: d.ethernets,
            bridges: d.bridges,
        }));
    }
}

/// The lines of a well-formed document parse back to exactly the document.
proof fn lemma_parse_lines_rt(d: DocV)
    requires
        wf_codec_doc(d),
    ensures
        parse_lines(doc_lines(d)) == Some(d),
{
    if d.bridges is Some {
        lemma_parse_lines_rt_some(d);
    } else {
        lemma_parse_lines_rt_none(d);
    }
}

/// Serializing a well-formed, unambiguous document and parsing the result
/// yields exactly the original document: field omissions reproduce as
/// absent fields, never as empty collections.
pub proof fn lemma_codec_round_trip(d: DocV)
    requires
        wf_codec_doc(d),
    ensures
        parse_doc_spec(ser_doc(d)) == Some(d),
{
    lemma_doc_no_nl(d);
    lemma_to_lines_unlines(doc_lines(d));
    lemma_parse_lines_rt(d);
}

} // verus!
