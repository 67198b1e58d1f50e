//! Document-wide laws: what merging and editing preserve, stated over the
//! mathematical views that the operations' contracts use.

use vstd::prelude::*;
use crate::text::lex_le;
use crate::model::{
    NicV, NicOutputV, DocV, names_of, pairs_map, unique_names, sorted_names, output_to_nic,
    lemma_pairs_map_index, lemma_pairs_map_key, lemma_pairs_map_dom,
};
use crate::merge::{
    upsert, merge_entries, set_entry, spec_merge, lemma_upsert_props, lemma_upsert_found,
    lemma_pairs_map_cons, lemma_sort_props,
};
use crate::validate::{edit_valid, gw_conflict};

verus! {

/// What folding a whole entry sequence does to the mapping: the incoming
/// entries override the base, name by name.
pub proof fn lemma_merge_entries_map<V>(x: Seq<(Seq<char>, V)>, y: Seq<(Seq<char>, V)>)
    requires
        unique_names(x),
    ensures
        unique_names(merge_entries(x, y)),
        pairs_map(merge_entries(x, y)) == pairs_map(x).union_prefer_right(pairs_map(y)),
    decreases y.len(),
{
    if y.len() == 0 {
        assert(pairs_map(y) =~= Map::<Seq<char>, V>::empty());
        assert(pairs_map(x).union_prefer_right(pairs_map(y)) =~= pairs_map(x));
    } else {
        lemma_upsert_props(x, y[0]);
        lemma_merge_entries_map(upsert(x, y[0]), y.skip(1));
        lemma_pairs_map_cons(y[0], y.skip(1));
        assert(seq![y[0]] + y.skip(1) =~= y);
        let my0 = Map::<Seq<char>, V>::empty().insert(y[0].0, y[0].1);
        assert(pairs_map(y) == my0.union_prefer_right(pairs_map(y.skip(1))));
        assert(pairs_map(x).insert(y[0].0, y[0].1).union_prefer_right(pairs_map(y.skip(1)))
            =~= pairs_map(x).union_prefer_right(pairs_map(y)));
    }
}

/// Merging is associative in its observable content: the scalar fields and
/// the interface mapping's name-to-settings content agree whichever way
/// three documents are grouped. Bridge presence is deliberately
/// path-dependent and not part of this law.
pub proof fn lemma_merge_assoc(a: DocV, b: DocV, c: DocV)
    requires
        unique_names(a.ethernets),
        unique_names(b.ethernets),
        unique_names(c.ethernets),
    ensures
        spec_merge(spec_merge(a, b), c).version == spec_merge(a, spec_merge(b, c)).version,
        spec_merge(spec_merge(a, b), c).renderer == spec_merge(a, spec_merge(b, c)).renderer,
        pairs_map(spec_merge(spec_merge(a, b), c).ethernets) == pairs_map(
            spec_merge(a, spec_merge(b, c)).ethernets,
        ),
{
    let ab = spec_merge(a, b);
    let bc = spec_merge(b, c);
    lemma_merge_entries_map(a.ethernets, b.ethernets);
    lemma_sort_props(merge_entries(a.ethernets, b.ethernets));
    lemma_merge_entries_map(b.ethernets, c.ethernets);
    lemma_sort_props(merge_entries(b.ethernets, c.ethernets));
    lemma_merge_entries_map(ab.ethernets, c.ethernets);
    lemma_sort_props(merge_entries(ab.ethernets, c.ethernets));
    lemma_merge_entries_map(a.ethernets, bc.ethernets);
    lemma_sort_props(merge_entries(a.ethernets, bc.ethernets));
    let ma = pairs_map(a.ethernets);
    let mb = pairs_map(b.ethernets);
    let mc = pairs_map(c.ethernets);
    assert(pairs_map(spec_merge(ab, c).ethernets) == ma.union_prefer_right(
        mb,
    ).union_prefer_right(mc));
    assert(pairs_map(spec_merge(a, bc).ethernets) == ma.union_prefer_right(
        mb.union_prefer_right(mc),
    ));
    assert(ma.union_prefer_right(mb).union_prefer_right(mc) =~= ma.union_prefer_right(
        mb.union_prefer_right(mc),
    ));
}

/// One whole-interface edit keeps the mapping's names unique and its order
/// sorted, and its content is the old content with the one name rebound.
pub proof fn lemma_set_entry_shape(s: Seq<(Seq<char>, NicV)>, name: Seq<char>, v: NicV)
    requires
        unique_names(s),
        sorted_names(s),
    ensures
        unique_names(set_entry(s, name, v)),
        sorted_names(set_entry(s, name, v)),
        pairs_map(set_entry(s, name, v)) == pairs_map(s).insert(name, v),
{
    let p = (name, v);
    if names_of(s).contains(name) {
        lemma_upsert_props(s, p);
        let i = choose|i: int| 0 <= i < names_of(s).len() && names_of(s)[i] == name;
        assert(forall|k: int| 0 <= k < s.len() ==> names_of(s)[k] == s[k].0);
        assert(s[i].0 == name);
        assert forall|k: int| 0 <= k < i implies s[k].0 != name by {
            if s[k].0 == name {
                assert(s[k].0 == s[i].0);
            }
        }
        lemma_upsert_found(s, p, i);
        let r = s.update(i, p);
        assert forall|x: int, y: int| 0 <= x <= y < r.len() implies lex_le(r[x].0, r[y].0) by {
            assert(r[x].0 == s[x].0);
            assert(r[y].0 == s[y].0);
        }
    } else {
        let pushed = s.push(p);
        assert forall|x: int, y: int| 0 <= x < y < pushed.len()
            implies pushed[x].0 != pushed[y].0 by {
            if y == s.len() as int {
                assert(names_of(s)[x] == s[x].0);
                assert(pushed[y].0 == name);
            }
        }
        lemma_sort_props(pushed);
        assert forall|n: Seq<char>|
            names_of(pushed).contains(n) <==> (names_of(s).contains(n) || n == name) by {
            assert(forall|k: int| 0 <= k < pushed.len() ==> names_of(pushed)[k] == pushed[k].0);
            assert(forall|k: int| 0 <= k < s.len() ==> names_of(s)[k] == s[k].0);
            if names_of(pushed).contains(n) {
                let k = choose|k: int| 0 <= k < pushed.len() && names_of(pushed)[k] == n;
                if k < s.len() {
                    assert(names_of(s)[k] == n);
                }
            }
            if names_of(s).contains(n) {
                let k = choose|k: int| 0 <= k < s.len() && names_of(s)[k] == n;
                assert(names_of(pushed)[k] == n);
            }
            if n == name {
                assert(names_of(pushed)[s.len() as int] == n);
            }
        }
        assert(pairs_map(pushed) == pairs_map(s).insert(name, v)) by {
            assert(pushed.drop_last() =~= s);
            assert(pushed.last() == p);
        }
    }
}

/// At most one interface of the mapping carries a non-empty gateway.
pub open spec fn at_most_one_gateway(s: Seq<(Seq<char>, NicV)>) -> bool {
    forall|i: int, j: int|
        0 <= i < j < s.len() ==> !((#[trigger] s[i]).1.gateway4 is Some
            && (#[trigger] s[j]).1.gateway4 is Some)
}

/// The gateway invariant is preserved by every whole-interface edit that
/// passes validation: after the edit, still at most one interface owns the
/// default gateway. An edit that would create a second owner is rejected as
/// a gateway conflict before any mutation, leaving the document unchanged.
pub proof fn lemma_set_preserves_gateway_invariant(
    s: Seq<(Seq<char>, NicV)>,
    name: Seq<char>,
    e: NicOutputV,
)
    requires
        unique_names(s),
        sorted_names(s),
        at_most_one_gateway(s),
        edit_valid(s, name, e),
    ensures
        at_most_one_gateway(set_entry(s, name, output_to_nic(e))),
{
    let v = output_to_nic(e);
    let r = set_entry(s, name, v);
    lemma_set_entry_shape(s, name, v);
    assert(pairs_map(r) == pairs_map(s).insert(name, v));
    assert forall|i: int, j: int| 0 <= i < j < r.len()
        implies !(r[i].1.gateway4 is Some && r[j].1.gateway4 is Some) by {
        if r[i].1.gateway4 is Some && r[j].1.gateway4 is Some {
            lemma_pairs_map_index(r, i);
            lemma_pairs_map_index(r, j);
            assert(r[i].0 != r[j].0);
            // at most one of the two names can be the edited one
            let other = if r[i].0 == name {
                j
            } else {
                i
            };
            assert(r[other].0 != name);
            assert(pairs_map(r)[r[other].0] == pairs_map(s)[r[other].0]);
            lemma_pairs_map_dom(s, r[other].0);
            lemma_pairs_map_key(s, r[other].0);
            let k = choose|k: int| 0 <= k < s.len() && s[k].0 == r[other].0;
            lemma_pairs_map_index(s, k);
            assert(s[k].1 == r[other].1);
            assert(s[k].1.gateway4 is Some);
            if e.gateway4 is Some {
                // validation refused a second gateway owner
                assert(gw_conflict(s, name, e));
            } else {
                // the edited entry carries no gateway, so both carriers are
                // untouched entries of the old mapping
                assert(v.gateway4 is None);
                assert(r[i].0 != name || r[i].1.gateway4 is None) by {
                    if r[i].0 == name {
                        lemma_pairs_map_index(r, i);
                    }
                }
                assert(r[j].0 != name || r[j].1.gateway4 is None);
                // both names are old entries with gateways
                assert(r[i].0 != name && r[j].0 != name);
                assert(pairs_map(r)[r[i].0] == pairs_map(s)[r[i].0]);
                assert(pairs_map(r)[r[j].0] == pairs_map(s)[r[j].0]);
                lemma_pairs_map_dom(s, r[i].0);
                lemma_pairs_map_key(s, r[i].0);
                lemma_pairs_map_dom(s, r[j].0);
                lemma_pairs_map_key(s, r[j].0);
                let ki = choose|k: int| 0 <= k < s.len() && s[k].0 == r[i].0;
                let kj = choose|k: int| 0 <= k < s.len() && s[k].0 == r[j].0;
                lemma_pairs_map_index(s, ki);
                lemma_pairs_map_index(s, kj);
                assert(s[ki].1.gateway4 is Some);
                assert(s[kj].1.gateway4 is Some);
                assert(ki != kj);
                if ki < kj {
                    assert(!(s[ki].1.gateway4 is Some && s[kj].1.gateway4 is Some));
                } else {
                    assert(!(s[kj].1.gateway4 is Some && s[ki].1.gateway4 is Some));
                }
            }
        }
    }
}

} // verus!
