//! The merge engine: folding one document over another under last-wins
//! rules, replacing or inserting one interface's settings, subtracting
//! values from one interface, and keeping the interface mapping sorted.

use vstd::prelude::*;
use crate::text::{lex_le, lemma_lex_le_total, lemma_lex_le_trans, str_eq, str_lex_le};
use crate::model::{
    Nic, NicV, NicOutputV, NicOutput, NameserversV, NetplanYaml, DocV, names_of, pairs_map,
    unique_names, sorted_names, lemma_pairs_map_dom, unset_nic,
};
use crate::errors::IfError;

verus! {

/// Replaces the first entry named `p.0` with `p`, keeping its position; when
/// no entry carries that name, appends `p` at the end.
pub open spec fn upsert<V>(s: Seq<(Seq<char>, V)>, p: (Seq<char>, V)) -> Seq<(Seq<char>, V)>
    decreases s.len(),
{
    if s.len() == 0 {
        seq![p]
    } else if s[0].0 == p.0 {
        seq![p] + s.skip(1)
    } else {
        seq![s[0]] + upsert(s.skip(1), p)
    }
}

/// Folds every incoming entry over the base, in order, by `upsert`.
pub open spec fn merge_entries<V>(
    base: Seq<(Seq<char>, V)>,
    inc: Seq<(Seq<char>, V)>,
) -> Seq<(Seq<char>, V)>
    decreases inc.len(),
{
    if inc.len() == 0 {
        base
    } else {
        merge_entries(upsert(base, inc[0]), inc.skip(1))
    }
}

/// Inserts `p` in front of the first entry whose name does not precede it.
pub open spec fn insert_sorted<V>(s: Seq<(Seq<char>, V)>, p: (Seq<char>, V)) -> Seq<(Seq<char>, V)>
    decreases s.len(),
{
    if s.len() == 0 {
        seq![p]
    } else if lex_le(p.0, s[0].0) {
        seq![p] + s
    } else {
        seq![s[0]] + insert_sorted(s.skip(1), p)
    }
}

/// Insertion sort of an entry sequence by name.
pub open spec fn sort_entries<V>(s: Seq<(Seq<char>, V)>) -> Seq<(Seq<char>, V)>
    decreases s.len(),
{
    if s.len() == 0 {
        s
    } else {
        insert_sorted(sort_entries(s.drop_last()), s.last())
    }
}

/// The interface mapping after one whole-interface edit: an existing entry is
/// replaced in place; a new name is inserted and the mapping re-sorted.
pub open spec fn set_entry(
    s: Seq<(Seq<char>, NicV)>,
    name: Seq<char>,
    v: NicV,
) -> Seq<(Seq<char>, NicV)> {
    if names_of(s).contains(name) {
        upsert(s, (name, v))
    } else {
        sort_entries(s.push((name, v)))
    }
}


/// The document that merging `b` over `a` yields: last-non-null scalars,
/// interface entries replaced or appended then re-sorted, and bridges folded
/// only when the base already has a bridge mapping.
pub open spec fn spec_merge(a: DocV, b: DocV) -> DocV {
    DocV {
        version: if b.version is Some {
            b.version
        } else {
            a.version
        },
        renderer: if b.renderer is Some {
            b.renderer
        } else {
            a.renderer
        },
        ethernets: sort_entries(merge_entries(a.ethernets, b.ethernets)),
        bridges: match (a.bridges, b.bridges) {
            (Some(ob), Some(nb)) => Some(merge_entries(ob, nb)),
            (ob, _) => ob,
        },
    }
}

/// When the first match is at `j`, `upsert` is an in-place update.
pub proof fn lemma_upsert_found<V>(s: Seq<(Seq<char>, V)>, p: (Seq<char>, V), j: int)
    requires
        0 <= j < s.len(),
        s[j].0 == p.0,
        forall|k: int| 0 <= k < j ==> s[k].0 != p.0,
    ensures
        upsert(s, p) == s.update(j, p),
    decreases j,
{
    if j == 0 {
        assert(upsert(s, p) == seq![p] + s.skip(1));
        assert(seq![p] + s.skip(1) =~= s.update(0, p));
    } else {
        assert(s[0].0 != p.0);
        lemma_upsert_found(s.skip(1), p, j - 1);
        assert(seq![s[0]] + s.skip(1).update(j - 1, p) =~= s.update(j, p));
    }
}

/// When no entry matches, `upsert` appends.
pub proof fn lemma_upsert_absent<V>(s: Seq<(Seq<char>, V)>, p: (Seq<char>, V))
    requires
        forall|k: int| 0 <= k < s.len() ==> s[k].0 != p.0,
    ensures
        upsert(s, p) == s.push(p),
    decreases s.len(),
{
    if s.len() == 0 {
        assert(upsert(s, p) =~= s.push(p));
    } else {
        lemma_upsert_absent(s.skip(1), p);
        assert(seq![s[0]] + s.skip(1).push(p) =~= s.push(p));
    }
}

/// When `j` is the first position whose entry's name does not precede `p.0`,
/// `insert_sorted` inserts exactly there.
pub proof fn lemma_insert_sorted_at<V>(s: Seq<(Seq<char>, V)>, p: (Seq<char>, V), j: int)
    requires
        0 <= j <= s.len(),
        forall|k: int| 0 <= k < j ==> !lex_le(p.0, s[k].0),
        j < s.len() ==> lex_le(p.0, s[j].0),
    ensures
        insert_sorted(s, p) == s.insert(j, p),
    decreases j,
{
    if j == 0 {
        if s.len() == 0 {
            assert(insert_sorted(s, p) =~= s.insert(0, p));
        } else {
            assert(insert_sorted(s, p) == seq![p] + s);
            assert(seq![p] + s =~= s.insert(0, p));
        }
    } else {
        assert(!lex_le(p.0, s[0].0));
        lemma_insert_sorted_at(s.skip(1), p, j - 1);
        assert(seq![s[0]] + s.skip(1).insert(j - 1, p) =~= s.insert(j, p));
    }
}

/// The mapping of a sequence with one entry put in front: the front entry's
/// binding is overridden by any later entry of the same name.
pub proof fn lemma_pairs_map_cons<V>(x: (Seq<char>, V), t: Seq<(Seq<char>, V)>)
    ensures
        pairs_map(seq![x] + t) == Map::<Seq<char>, V>::empty().insert(x.0, x.1).union_prefer_right(
            pairs_map(t),
        ),
    decreases t.len(),
{
    let mx = Map::<Seq<char>, V>::empty().insert(x.0, x.1);
    if t.len() == 0 {
        assert(seq![x] + t =~= seq![x]);
        assert(seq![x].drop_last() =~= Seq::<(Seq<char>, V)>::empty());
        assert(seq![x].last() == x);
        assert(pairs_map(seq![x]) == pairs_map(seq![x].drop_last()).insert(x.0, x.1));
        assert(mx.union_prefer_right(pairs_map(t)) =~= mx);
        assert(pairs_map(seq![x]) =~= mx);
    } else {
        lemma_pairs_map_cons(x, t.drop_last());
        assert((seq![x] + t).drop_last() =~= seq![x] + t.drop_last());
        assert((seq![x] + t).last() == t.last());
        assert(pairs_map(seq![x] + t) == pairs_map(seq![x] + t.drop_last()).insert(
            t.last().0,
            t.last().1,
        ));
        assert(pairs_map(t) == pairs_map(t.drop_last()).insert(t.last().0, t.last().1));
        assert(mx.union_prefer_right(pairs_map(t.drop_last())).insert(t.last().0, t.last().1)
            =~= mx.union_prefer_right(pairs_map(t)));
    }
}

/// The names of a sequence with one entry put in front.
proof fn lemma_names_cons<V>(x: (Seq<char>, V), t: Seq<(Seq<char>, V)>)
    ensures
        names_of(seq![x] + t) == seq![x.0] + names_of(t),
{
    assert forall|i: int| 0 <= i < names_of(seq![x] + t).len()
        implies names_of(seq![x] + t)[i] == (seq![x.0] + names_of(t))[i] by {
        if i > 0 {
            assert((seq![x] + t)[i] == t[i - 1]);
        }
    }
    assert(names_of(seq![x] + t) =~= seq![x.0] + names_of(t));
}

/// What `upsert` does to the name set, the mapping, and uniqueness.
pub proof fn lemma_upsert_props<V>(s: Seq<(Seq<char>, V)>, p: (Seq<char>, V))
    ensures
        forall|n: Seq<char>|
            (#[trigger] names_of(upsert(s, p)).contains(n)) <==> (names_of(s).contains(n) || n
                == p.0),
        unique_names(s) ==> unique_names(upsert(s, p)),
        unique_names(s) ==> pairs_map(upsert(s, p)) == pairs_map(s).insert(p.0, p.1),
    decreases s.len(),
{
    let r = upsert(s, p);
    if s.len() == 0 {
        assert(names_of(r) =~= seq![p.0]);
        assert(forall|n: Seq<char>| names_of(s).contains(n) == false);
        assert(names_of(r)[0] == p.0);
        assert(names_of(r).contains(p.0));
        assert(forall|n: Seq<char>| names_of(r).contains(n) ==> n == p.0);
        assert(r.drop_last() =~= s);
        assert(r.last() == p);
        assert(pairs_map(r) == pairs_map(s).insert(p.0, p.1));
    } else if s[0].0 == p.0 {
        assert(r == seq![p] + s.skip(1));
        lemma_names_cons(p, s.skip(1));
        assert(names_of(r) == seq![p.0] + names_of(s.skip(1)));
        assert forall|i: int| 0 <= i < names_of(s).len()
            implies names_of(s)[i] == (seq![s[0].0] + names_of(s.skip(1)))[i] by {
            if i > 0 {
                assert(s[i] == s.skip(1)[i - 1]);
            }
        }
        assert(names_of(s) =~= seq![s[0].0] + names_of(s.skip(1)));
        assert forall|n: Seq<char>|
            names_of(r).contains(n) <==> (names_of(s).contains(n) || n == p.0) by {
            if names_of(r).contains(n) {
                let i = choose|i: int| 0 <= i < names_of(r).len() && names_of(r)[i] == n;
                if i == 0 {
                } else {
                    assert(names_of(s)[i] == n);
                }
            }
            if names_of(s).contains(n) {
                let i = choose|i: int| 0 <= i < names_of(s).len() && names_of(s)[i] == n;
                if i == 0 {
                    assert(n == p.0);
                    assert(names_of(r)[0] == n);
                } else {
                    assert(names_of(r)[i] == n);
                }
            }
            if n == p.0 {
                assert(names_of(r)[0] == n);
            }
        }
        if unique_names(s) {
            assert forall|i: int, j: int| 0 <= i < j < r.len() implies r[i].0 != r[j].0 by {
                assert(s[i].0 == r[i].0 || i == 0);
                assert(s[j].0 == r[j].0);
            }
            lemma_pairs_map_cons(p, s.skip(1));
            lemma_pairs_map_cons(s[0], s.skip(1));
            assert(seq![s[0]] + s.skip(1) =~= s);
            lemma_pairs_map_dom(s.skip(1), p.0);
            assert(!names_of(s.skip(1)).contains(p.0)) by {
                if names_of(s.skip(1)).contains(p.0) {
                    let i = choose|i: int|
                        0 <= i < s.skip(1).len() && names_of(s.skip(1))[i] == p.0;
                    assert(s[i + 1].0 == p.0);
                    assert(s[0].0 == p.0);
                }
            }
            assert(pairs_map(r) =~= pairs_map(s).insert(p.0, p.1));
        }
    } else {
        lemma_upsert_props(s.skip(1), p);
        let rt = upsert(s.skip(1), p);
        assert(r == seq![s[0]] + rt);
        lemma_names_cons(s[0], rt);
        assert(names_of(r) == seq![s[0].0] + names_of(rt));
        assert forall|i: int| 0 <= i < names_of(s).len()
            implies names_of(s)[i] == (seq![s[0].0] + names_of(s.skip(1)))[i] by {
            if i > 0 {
                assert(s[i] == s.skip(1)[i - 1]);
            }
        }
        assert(names_of(s) =~= seq![s[0].0] + names_of(s.skip(1)));
        assert forall|n: Seq<char>|
            names_of(r).contains(n) <==> (names_of(s).contains(n) || n == p.0) by {
            if names_of(r).contains(n) {
                let i = choose|i: int| 0 <= i < names_of(r).len() && names_of(r)[i] == n;
                if i == 0 {
                    assert(names_of(s)[0] == n);
                    assert(names_of(s).contains(n));
                } else {
                    assert(names_of(rt)[i - 1] == n);
                    assert(names_of(rt).contains(n));
                    if n != p.0 {
                        assert(names_of(s.skip(1)).contains(n));
                        let k = choose|k: int|
                            0 <= k < names_of(s.skip(1)).len() && names_of(s.skip(1))[k] == n;
                        assert(names_of(s)[k + 1] == n);
                        assert(names_of(s).contains(n));
                    }
                }
            }
            if names_of(s).contains(n) {
                let i = choose|i: int| 0 <= i < names_of(s).len() && names_of(s)[i] == n;
                if i == 0 {
                    assert(names_of(r)[0] == n);
                } else {
                    assert(names_of(s.skip(1))[i - 1] == n);
                    assert(names_of(s.skip(1)).contains(n));
                    assert(names_of(rt).contains(n));
                    let k = choose|k: int| 0 <= k < names_of(rt).len() && names_of(rt)[k] == n;
                    assert(names_of(r)[k + 1] == n);
                }
            }
            if n == p.0 {
                assert(names_of(rt).contains(n));
                let k = choose|k: int| 0 <= k < names_of(rt).len() && names_of(rt)[k] == n;
                assert(names_of(r)[k + 1] == n);
            }
        }
        if unique_names(s) {
            assert(unique_names(s.skip(1))) by {
                assert forall|i: int, j: int| 0 <= i < j < s.skip(1).len()
                    implies s.skip(1)[i].0 != s.skip(1)[j].0 by {
                    assert(s.skip(1)[i] == s[i + 1]);
                    assert(s.skip(1)[j] == s[j + 1]);
                }
            }
            assert(unique_names(rt));
            assert forall|i: int, j: int| 0 <= i < j < r.len() implies r[i].0 != r[j].0 by {
                if i == 0 {
                    assert(r[0].0 == s[0].0);
                    assert(names_of(rt).contains(r[j].0)) by {
                        assert(names_of(rt)[j - 1] == rt[j - 1].0);
                        assert(r[j] == rt[j - 1]);
                    }
                    assert(names_of(s.skip(1)).contains(r[j].0) || r[j].0 == p.0);
                    if names_of(s.skip(1)).contains(r[j].0) {
                        let k = choose|k: int|
                            0 <= k < s.skip(1).len() && names_of(s.skip(1))[k] == r[j].0;
                        assert(s[k + 1].0 == r[j].0);
                    }
                } else {
                    assert(r[i] == rt[i - 1] && r[j] == rt[j - 1]);
                }
            }
            lemma_pairs_map_cons(s[0], rt);
            lemma_pairs_map_cons(s[0], s.skip(1));
            assert(seq![s[0]] + s.skip(1) =~= s);
            assert(pairs_map(r) =~= pairs_map(s).insert(p.0, p.1)) by {
                assert(pairs_map(rt) == pairs_map(s.skip(1)).insert(p.0, p.1));
            }
        }
    }
}

/// What `insert_sorted` does to length, names, mapping, uniqueness, order.
pub proof fn lemma_insert_sorted_props<V>(s: Seq<(Seq<char>, V)>, p: (Seq<char>, V))
    ensures
        insert_sorted(s, p).len() == s.len() + 1,
        forall|n: Seq<char>|
            names_of(insert_sorted(s, p)).contains(n) <==> (names_of(s).contains(n) || n == p.0),
        unique_names(s) && !names_of(s).contains(p.0) ==> unique_names(insert_sorted(s, p)),
        unique_names(s) && !names_of(s).contains(p.0) ==> pairs_map(insert_sorted(s, p))
            == pairs_map(s).insert(p.0, p.1),
        sorted_names(s) ==> sorted_names(insert_sorted(s, p)),
    decreases s.len(),
{
    let r = insert_sorted(s, p);
    let j = first_ge_index(s, p.0);
    lemma_first_ge_index(s, p.0);
    lemma_insert_sorted_at(s, p, j);
    assert(r == s.insert(j, p));
    assert(r =~= s.subrange(0, j) + seq![p] + s.skip(j));
    assert(r.len() == s.len() + 1);
    assert forall|n: Seq<char>|
        names_of(r).contains(n) <==> (names_of(s).contains(n) || n == p.0) by {
        assert(names_of(r).len() == r.len());
        assert(forall|i: int| 0 <= i < r.len() ==> names_of(r)[i] == r[i].0);
        assert(forall|i: int| 0 <= i < s.len() ==> names_of(s)[i] == s[i].0);
        if names_of(r).contains(n) {
            let i = choose|i: int| 0 <= i < r.len() && names_of(r)[i] == n;
            if i < j {
                assert(s[i].0 == n);
                assert(names_of(s)[i] == n);
            } else if i == j {
                assert(n == p.0);
            } else {
                assert(s[i - 1].0 == n);
                assert(names_of(s)[i - 1] == n);
            }
        }
        if names_of(s).contains(n) {
            let i = choose|i: int| 0 <= i < s.len() && names_of(s)[i] == n;
            if i < j {
                assert(r[i].0 == n);
                assert(names_of(r)[i] == n);
            } else {
                assert(r[i + 1].0 == n);
                assert(names_of(r)[i + 1] == n);
            }
        }
        if n == p.0 {
            assert(r[j].0 == n);
            assert(names_of(r)[j] == n);
        }
    }
    if unique_names(s) && !names_of(s).contains(p.0) {
        assert forall|a: int, b: int| 0 <= a < b < r.len() implies r[a].0 != r[b].0 by {
            let sa = if a < j { a } else { a - 1 };
            let sb = if b < j { b } else { b - 1 };
            if a == j {
                assert(r[b] == s[sb]);
                assert(names_of(s)[sb] == s[sb].0);
                assert(r[a].0 == p.0);
            } else if b == j {
                assert(r[a] == s[sa]);
                assert(names_of(s)[sa] == s[sa].0);
                assert(r[b].0 == p.0);
            } else {
                assert(r[a] == s[sa] && r[b] == s[sb]);
            }
        }
        lemma_insert_pairs_map(s, p, j);
    }
    if sorted_names(s) {
        assert forall|a: int, b: int| 0 <= a <= b < r.len() implies lex_le(r[a].0, r[b].0) by {
            let sa = if a < j { a } else { a - 1 };
            let sb = if b < j { b } else { b - 1 };
            if a == j && b == j {
                lemma_lex_le_total(r[a].0, r[a].0);
            } else if a == j {
                assert(r[b] == s[sb]);
                assert(lex_le(p.0, s[j].0));
                assert(lex_le(s[j].0, s[sb].0));
                lemma_lex_le_trans(p.0, s[j].0, s[sb].0);
            } else if b == j {
                assert(r[a] == s[sa]);
                assert(!lex_le(p.0, s[sa].0));
                lemma_lex_le_total(p.0, s[sa].0);
            } else {
                assert(r[a] == s[sa] && r[b] == s[sb]);
            }
        }
    }
}

/// The first index whose entry's name does not precede `n`.
pub open spec fn first_ge_index<V>(s: Seq<(Seq<char>, V)>, n: Seq<char>) -> int
    decreases s.len(),
{
    if s.len() == 0 {
        0
    } else if lex_le(n, s[0].0) {
        0
    } else {
        1 + first_ge_index(s.skip(1), n)
    }
}

proof fn lemma_first_ge_index<V>(s: Seq<(Seq<char>, V)>, n: Seq<char>)
    ensures
        0 <= first_ge_index(s, n) <= s.len(),
        forall|k: int| 0 <= k < first_ge_index(s, n) ==> !lex_le(n, s[k].0),
        first_ge_index(s, n) < s.len() ==> lex_le(n, s[first_ge_index(s, n)].0),
    decreases s.len(),
{
    if s.len() > 0 && !lex_le(n, s[0].0) {
        lemma_first_ge_index(s.skip(1), n);
        assert(forall|k: int| 1 <= k < first_ge_index(s, n) ==> s[k] == s.skip(1)[k - 1]);
    }
}

proof fn lemma_insert_pairs_map<V>(s: Seq<(Seq<char>, V)>, p: (Seq<char>, V), j: int)
    requires
        0 <= j <= s.len(),
        unique_names(s),
        !names_of(s).contains(p.0),
    ensures
        pairs_map(s.insert(j, p)) == pairs_map(s).insert(p.0, p.1),
    decreases s.len(),
{
    let r = s.insert(j, p);
    if j == s.len() {
        assert(r =~= s.push(p));
        assert(r.drop_last() =~= s);
        assert(r.last() == p);
    } else {
        assert(r.drop_last() =~= s.drop_last().insert(j, p));
        assert(r.last() == s.last());
        assert(unique_names(s.drop_last()));
        assert(!names_of(s.drop_last()).contains(p.0)) by {
            if names_of(s.drop_last()).contains(p.0) {
                let i = choose|i: int|
                    0 <= i < s.len() - 1 && names_of(s.drop_last())[i] == p.0;
                assert(s[i].0 == p.0);
                assert(names_of(s)[i] == p.0);
            }
        }
        lemma_insert_pairs_map(s.drop_last(), p, j);
        assert(s.last().0 != p.0) by {
            assert(names_of(s)[s.len() - 1] == s.last().0);
        }
        assert(pairs_map(r) == pairs_map(s.drop_last()).insert(p.0, p.1).insert(
            s.last().0,
            s.last().1,
        ));
        assert(pairs_map(s.drop_last()).insert(p.0, p.1).insert(s.last().0, s.last().1)
            =~= pairs_map(s).insert(p.0, p.1));
    }
}

/// What sorting does: same names, same mapping, order established.
pub proof fn lemma_sort_props<V>(s: Seq<(Seq<char>, V)>)
    ensures
        sort_entries(s).len() == s.len(),
        forall|n: Seq<char>| names_of(sort_entries(s)).contains(n) <==> names_of(s).contains(n),
        sorted_names(sort_entries(s)),
        unique_names(s) ==> unique_names(sort_entries(s)),
        unique_names(s) ==> pairs_map(sort_entries(s)) == pairs_map(s),
    decreases s.len(),
{
    if s.len() > 0 {
        let t = s.drop_last();
        let x = s.last();
        lemma_sort_props(t);
        lemma_insert_sorted_props(sort_entries(t), x);
        assert forall|n: Seq<char>|
            names_of(s).contains(n) <==> (names_of(t).contains(n) || n == x.0) by {
            assert(forall|i: int| 0 <= i < s.len() ==> names_of(s)[i] == s[i].0);
            assert(forall|i: int| 0 <= i < t.len() ==> names_of(t)[i] == t[i].0);
            if names_of(s).contains(n) {
                let i = choose|i: int| 0 <= i < s.len() && names_of(s)[i] == n;
                if i < s.len() - 1 {
                    assert(names_of(t)[i] == n);
                }
            }
            if names_of(t).contains(n) {
                let i = choose|i: int| 0 <= i < t.len() && names_of(t)[i] == n;
                assert(names_of(s)[i] == n);
            }
            if n == x.0 {
                assert(names_of(s)[s.len() - 1] == n);
            }
        }
        if unique_names(s) {
            assert(unique_names(t));
            assert(!names_of(t).contains(x.0)) by {
                if names_of(t).contains(x.0) {
                    let i = choose|i: int| 0 <= i < t.len() && names_of(t)[i] == x.0;
                    assert(s[i].0 == x.0);
                    assert(s[s.len() - 1].0 == x.0);
                }
            }
            assert(!names_of(sort_entries(t)).contains(x.0));
            assert(pairs_map(sort_entries(s)) == pairs_map(sort_entries(t)).insert(x.0, x.1));
            assert(pairs_map(s) == pairs_map(t).insert(x.0, x.1));
        }
    }
}

/// Replaces the first entry of `v` named `p.0`, or appends `p`.
fn upsert_entry<T: DeepView>(v: &mut Vec<(String, T)>, p: (String, T))
    ensures
        final(v).deep_view() == upsert(old(v).deep_view(), p.deep_view()),
{
    let ghost s = v.deep_view();
    let ghost pv = p.deep_view();
    let mut j: usize = 0;
    while j < v.len()
        invariant
            j <= v.len(),
            s == v.deep_view(),
            s == old(v).deep_view(),
            pv == p.deep_view(),
            forall|k: int| 0 <= k < j ==> s[k].0 != pv.0,
        decreases v.len() - j,
    {
        if str_eq(v[j].0.as_str(), p.0.as_str()) {
            assert(s[j as int].0 == pv.0);
            let ghost vs = v@;
            let _ = v.remove(j);
            v.insert(j, p);
            proof {
                lemma_upsert_found(s, pv, j as int);
                assert forall|k: int| 0 <= k < v@.len()
                    implies v.deep_view()[k] == s.update(j as int, pv)[k] by {
                    assert(v@ == vs.remove(j as int).insert(j as int, p));
                    if k != j as int {
                        assert(v@[k] == vs[k]);
                        assert(s[k] == vs[k].deep_view());
                    } else {
                        assert(v@[k] == p);
                    }
                }
                assert(v.deep_view() =~= s.update(j as int, pv));
            }
            return;
        }
        assert(s[j as int].0 != pv.0);
        j = j + 1;
    }
    v.push(p);
    proof {
        lemma_upsert_absent(s, pv);
        assert(v.deep_view() =~= s.push(pv));
    }
}

/// Sorts the entries of `v` by name, lexicographically.
fn sort_entries_exec<T: DeepView>(v: &mut Vec<(String, T)>)
    ensures
        final(v).deep_view() == sort_entries(old(v).deep_view()),
{
    let ghost orig = v.deep_view();
    let mut out: Vec<(String, T)> = Vec::new();
    while v.len() > 0
        invariant
            v@.len() <= orig.len(),
            v.deep_view() =~= orig.subrange(orig.len() - v@.len(), orig.len() as int),
            out.deep_view() == sort_entries(orig.subrange(0, orig.len() - v@.len())),
        decreases v.len(),
    {
        let ghost done = orig.len() - v@.len();
        let ghost vv = v.deep_view();
        let p = v.remove(0);
        let ghost pv = p.deep_view();
        assert(pv == vv[0]);
        assert(pv == orig[done]);
        assert forall|k: int| 0 <= k < v@.len() implies v.deep_view()[k] == vv[k + 1] by {}
        assert(v.deep_view() =~= orig.subrange(done + 1, orig.len() as int));
        let ghost sorted_prefix = out.deep_view();
        // find the insertion point
        let mut j: usize = 0;
        while j < out.len() && !str_lex_le(p.0.as_str(), out[j].0.as_str())
            invariant
                j <= out.len(),
                out.deep_view() == sorted_prefix,
                p.deep_view() == pv,
                forall|k: int| 0 <= k < j ==> !lex_le(pv.0, sorted_prefix[k].0),
            decreases out.len() - j,
        {
            j = j + 1;
        }
        assert(j < out.len() ==> lex_le(pv.0, sorted_prefix[j as int].0));
        out.insert(j, p);
        proof {
            lemma_insert_sorted_at(sorted_prefix, pv, j as int);
            assert(out.deep_view() =~= sorted_prefix.insert(j as int, pv));
            let pre = orig.subrange(0, done);
            let pre1 = orig.subrange(0, done + 1);
            assert(pre1.drop_last() =~= pre);
            assert(pre1.last() == pv);
            assert(sort_entries(pre1) == insert_sorted(sort_entries(pre), pv));
        }
    }
    assert(orig.subrange(0, orig.len() as int) =~= orig);
    *v = out;
}

/// Folds each entry of `inc`, in order, into `base` by `upsert_entry`.
fn merge_entries_exec<T: DeepView>(base: &mut Vec<(String, T)>, inc: Vec<(String, T)>)
    ensures
        final(base).deep_view() == merge_entries(old(base).deep_view(), inc.deep_view()),
{
    let mut inc = inc;
    let ghost goal = merge_entries(base.deep_view(), inc.deep_view());
    while inc.len() > 0
        invariant
            goal == merge_entries(base.deep_view(), inc.deep_view()),
        decreases inc.len(),
    {
        let ghost iv = inc.deep_view();
        let ghost bv = base.deep_view();
        let p = inc.remove(0);
        assert(p.deep_view() == iv[0]);
        assert(inc.deep_view() =~= iv.skip(1));
        upsert_entry(base, p);
        assert(merge_entries(bv, iv) == merge_entries(upsert(bv, iv[0]), iv.skip(1)));
    }
    assert(merge_entries(base.deep_view(), inc.deep_view()) == base.deep_view());
}


/// Whether `v` holds a string equal to `name`.
pub fn contains_str(v: &Vec<String>, name: &str) -> (r: bool)
    ensures
        r == v.deep_view().contains(name@),
{
    let mut i: usize = 0;
    while i < v.len()
        invariant
            i <= v.len(),
            forall|k: int| 0 <= k < i ==> v.deep_view()[k] != name@,
        decreases v.len() - i,
    {
        if str_eq(v[i].as_str(), name) {
            assert(v.deep_view()[i as int] == name@);
            return true;
        }
        i = i + 1;
    }
    assert forall|k: int| 0 <= k < v.deep_view().len() implies v.deep_view()[k] != name@ by {}
    false
}

/// The position of the first entry named `name`, if any; with, for `Some`,
/// the guarantee that no earlier entry carries the name.
pub fn find_entry_index<T: DeepView>(v: &Vec<(String, T)>, name: &str) -> (r: Option<usize>)
    ensures
        match r {
            Some(j) => j < v.len() && v.deep_view()[j as int].0 == name@ && forall|k: int|
                0 <= k < j ==> v.deep_view()[k].0 != name@,
            None => forall|k: int| 0 <= k < v.deep_view().len() ==> v.deep_view()[k].0 != name@,
        },
{
    let mut i: usize = 0;
    while i < v.len()
        invariant
            i <= v.len(),
            forall|k: int| 0 <= k < i ==> v.deep_view()[k].0 != name@,
        decreases v.len() - i,
    {
        if str_eq(v[i].0.as_str(), name) {
            assert(v.deep_view()[i as int].0 == name@);
            return Some(i);
        }
        i = i + 1;
    }
    None
}

/// The values of `l` that do not occur in `vals`, in their original order.
pub open spec fn remove_vals(l: Seq<Seq<char>>, vals: Seq<Seq<char>>) -> Seq<Seq<char>>
    decreases l.len(),
{
    if l.len() == 0 {
        l
    } else if vals.contains(l[0]) {
        remove_vals(l.skip(1), vals)
    } else {
        seq![l[0]] + remove_vals(l.skip(1), vals)
    }
}

/// Removes from `l` every value that occurs in `vals`.
pub fn remove_values(l: &mut Vec<String>, vals: &Vec<String>)
    ensures
        final(l).deep_view() == remove_vals(old(l).deep_view(), vals.deep_view()),
{
    let ghost lv = l.deep_view();
    let ghost vv = vals.deep_view();
    let mut out: Vec<String> = Vec::new();
    let mut i: usize = 0;
    assert(lv.skip(0) =~= lv);
    assert(out.deep_view() + remove_vals(lv, vv) =~= remove_vals(lv, vv));
    while i < l.len()
        invariant
            i <= l.len(),
            lv == l.deep_view(),
            vv == vals.deep_view(),
            remove_vals(lv, vv) == out.deep_view() + remove_vals(lv.skip(i as int), vv),
        decreases l.len() - i,
    {
        let ghost rest = lv.skip(i as int);
        assert(rest[0] == lv[i as int]);
        assert(rest.skip(1) =~= lv.skip(i as int + 1));
        if !contains_str(vals, l[i].as_str()) {
            let ghost before = out.deep_view();
            out.push(crate::model::clone_string(&l[i]));
            assert(out.deep_view() =~= before + seq![lv[i as int]]);
            assert(before + (seq![rest[0]] + remove_vals(rest.skip(1), vv)) =~= (before
                + seq![rest[0]]) + remove_vals(rest.skip(1), vv));
        }
        i = i + 1;
    }
    assert(lv.skip(lv.len() as int) =~= Seq::<Seq<char>>::empty());
    assert(remove_vals(lv, vv) =~= out.deep_view());
    *l = out;
}

/// One interface's settings after subtracting an edit: listed addresses
/// leave the address list; the gateway is cleared only when the edit names
/// it exactly; listed nameserver values leave whichever role list holds them.
pub open spec fn sub_nic(n: NicV, e: NicOutputV) -> NicV {
    NicV {
        addresses: match (n.addresses, e.addresses) {
            (Some(l), Some(vals)) => Some(remove_vals(l, vals)),
            _ => n.addresses,
        },
        dhcp4: n.dhcp4,
        gateway4: if e.gateway4 is Some && n.gateway4 == e.gateway4 {
            None
        } else {
            n.gateway4
        },
        nameservers: match (n.nameservers, e.nameservers) {
            (Some(ns), Some(vals)) => Some(
                NameserversV {
                    addresses: match ns.addresses {
                        Some(l) => Some(remove_vals(l, vals)),
                        None => None,
                    },
                    search: match ns.search {
                        Some(l) => Some(remove_vals(l, vals)),
                        None => None,
                    },
                },
            ),
            _ => n.nameservers,
        },
        optional: n.optional,
    }
}

/// The interface mapping after subtracting an edit from the entry named
/// `name`; the entry itself stays, even when all of its fields end up empty.
pub open spec fn sub_entries(
    s: Seq<(Seq<char>, NicV)>,
    name: Seq<char>,
    e: NicOutputV,
) -> Seq<(Seq<char>, NicV)>
    decreases s.len(),
{
    if s.len() == 0 {
        s
    } else if s[0].0 == name {
        seq![(s[0].0, sub_nic(s[0].1, e))] + s.skip(1)
    } else {
        seq![s[0]] + sub_entries(s.skip(1), name, e)
    }
}

/// When the first entry named `name` is at `j`, subtraction is an in-place
/// update of that entry.
pub proof fn lemma_sub_entries_at(
    s: Seq<(Seq<char>, NicV)>,
    name: Seq<char>,
    e: NicOutputV,
    j: int,
)
    requires
        0 <= j < s.len(),
        s[j].0 == name,
        forall|k: int| 0 <= k < j ==> s[k].0 != name,
    ensures
        sub_entries(s, name, e) == s.update(j, (s[j].0, sub_nic(s[j].1, e))),
    decreases j,
{
    if j == 0 {
        assert(seq![(s[0].0, sub_nic(s[0].1, e))] + s.skip(1) =~= s.update(
            0,
            (s[0].0, sub_nic(s[0].1, e)),
        ));
    } else {
        lemma_sub_entries_at(s.skip(1), name, e, j - 1);
        assert(s.skip(1)[j - 1] == s[j]);
        assert(seq![s[0]] + s.skip(1).update(j - 1, (s[j].0, sub_nic(s[j].1, e))) =~= s.update(
            j,
            (s[j].0, sub_nic(s[j].1, e)),
        ));
    }
}

impl NetplanYaml {
    /// Folds `newyml` over `self` under the last-wins rules: scalar fields
    /// take the incoming value when present; each incoming interface entry
    /// replaces or joins the mapping, which is then re-sorted by name; an
    /// incoming bridge mapping folds in only when `self` already has one.
    pub fn merge(&mut self, newyml: NetplanYaml)
        ensures
            final(self).deep_view() == spec_merge(old(self).deep_view(), newyml.deep_view()),
    {
        let NetplanYaml { network: net } = newyml;
        if net.version.is_some() {
            self.network.version = net.version;
        }
        if net.renderer.is_some() {
            self.network.renderer = net.renderer;
        }
        merge_entries_exec(&mut self.network.ethernets, net.ethernets);
        sort_entries_exec(&mut self.network.ethernets);
        match net.bridges {
            Some(nb) => {
                if self.network.bridges.is_some() {
                    let taken = self.network.bridges.take();
                    let mut sb = match taken {
                        Some(b) => b,
                        None => Vec::new(),
                    };
                    merge_entries_exec(&mut sb, nb);
                    self.network.bridges = Some(sb);
                }
            },
            None => {},
        }
    }

    /// Replaces the named interface's whole settings with `new_if`; a new
    /// name joins the mapping, which is then re-sorted by name.
    pub fn set_interface(&mut self, ifname: &str, new_if: Nic)
        ensures
            final(self).deep_view() == (DocV {
                ethernets: set_entry(
                    old(self).deep_view().ethernets,
                    ifname@,
                    new_if.deep_view(),
                ),
                ..old(self).deep_view()
            }),
    {
        let ghost s = self.deep_view().ethernets;
        let idx = find_entry_index(&self.network.ethernets, ifname);
        match idx {
            Some(j) => {
                proof {
                    assert(names_of(s)[j as int] == s[j as int].0);
                    assert(names_of(s).contains(ifname@));
                }
                upsert_entry(&mut self.network.ethernets, (ifname.to_owned(), new_if));
            },
            None => {
                proof {
                    assert forall|n: Seq<char>| names_of(s).contains(n) implies exists|k: int|
                        0 <= k < s.len() && s[k].0 == n by {
                        let i = choose|i: int| 0 <= i < names_of(s).len() && names_of(s)[i] == n;
                        assert(s[i].0 == n);
                    }
                    assert(!names_of(s).contains(ifname@));
                }
                self.network.ethernets.push((ifname.to_owned(), new_if));
                assert(self.network.ethernets.deep_view() =~= s.push(
                    (ifname@, new_if.deep_view()),
                ));
                sort_entries_exec(&mut self.network.ethernets);
            },
        }
    }

    /// Resets the named interface to all-unset settings; a new name joins
    /// the mapping as all-unset.
    pub fn init_interface(&mut self, ifname: &str)
        ensures
            final(self).deep_view() == (DocV {
                ethernets: set_entry(old(self).deep_view().ethernets, ifname@, unset_nic()),
                ..old(self).deep_view()
            }),
    {
        let new_if = Nic::unset();
        Self::set_interface(self, ifname, new_if);
    }

    /// Subtracts the edit's values from the named interface: removes listed
    /// addresses, clears the gateway only on an exact match, and removes
    /// listed nameserver values from both role lists. Fails when the name is
    /// absent; the entry itself is never removed.
    pub fn delete(&mut self, ifname: &str, nic_output: &NicOutput) -> (r: Result<(), IfError>)
        ensures
            names_of(old(self).deep_view().ethernets).contains(ifname@) ==> r is Ok
                && final(self).deep_view() == (DocV {
                ethernets: sub_entries(
                    old(self).deep_view().ethernets,
                    ifname@,
                    nic_output.deep_view(),
                ),
                ..old(self).deep_view()
            }),
            !names_of(old(self).deep_view().ethernets).contains(ifname@) ==> r
                == Result::<(), IfError>::Err(IfError::InterfaceNotFound) && *final(self)
                == *old(self),
    {
        let ghost s = self.deep_view().ethernets;
        let ghost e = nic_output.deep_view();
        proof {
            assert(forall|i: int| 0 <= i < s.len() ==> names_of(s)[i] == s[i].0);
            if names_of(s).contains(ifname@) {
                let i = choose|i: int| 0 <= i < names_of(s).len() && names_of(s)[i] == ifname@;
                assert(s[i].0 == ifname@);
            }
        }
        let idx = find_entry_index(&self.network.ethernets, ifname);
        let j = match idx {
            Some(j) => j,
            None => {
                assert(!names_of(s).contains(ifname@));
                return Err(IfError::InterfaceNotFound);
            },
        };
        assert(names_of(s)[j as int] == s[j as int].0);
        assert(names_of(s).contains(ifname@));
        let ghost vs = self.network.ethernets@;
        let mut pair = self.network.ethernets.remove(j);
        let ghost old_nic = pair.1.deep_view();

        match (&mut pair.1.addresses, &nic_output.addresses) {
            (Some(addrs), Some(vals)) => {
                remove_values(addrs, vals);
            },
            _ => {},
        }

        let clear_gw = match (&pair.1.gateway4, &nic_output.gateway4) {
            (Some(g), Some(eg)) => str_eq(g.as_str(), eg.as_str()),
            _ => false,
        };
        if clear_gw {
            pair.1.gateway4 = None;
        }

        match (&mut pair.1.nameservers, &nic_output.nameservers) {
            (Some(ns), Some(vals)) => {
                match &mut ns.addresses {
                    Some(l) => remove_values(l, vals),
                    None => {},
                }
                match &mut ns.search {
                    Some(l) => remove_values(l, vals),
                    None => {},
                }
            },
            _ => {},
        }

        assert(pair.1.deep_view() == sub_nic(old_nic, e));
        assert(pair.0@ == s[j as int].0);
        self.network.ethernets.insert(j, pair);
        proof {
            lemma_sub_entries_at(s, ifname@, e, j as int);
            assert forall|k: int| 0 <= k < self.network.ethernets.deep_view().len()
                implies self.network.ethernets.deep_view()[k] == s.update(
                j as int,
                (s[j as int].0, sub_nic(s[j as int].1, e)),
            )[k] by {
                assert(self.network.ethernets@ == vs.remove(j as int).insert(j as int, pair));
                if k != j as int {
                    assert(self.network.ethernets@[k] == vs[k]);
                    assert(s[k] == vs[k].deep_view());
                }
            }
            assert(self.network.ethernets.deep_view() =~= s.update(
                j as int,
                (s[j as int].0, sub_nic(s[j as int].1, e)),
            ));
        }
        Ok(())
    }
}

} // verus!
