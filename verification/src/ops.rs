//! The public operations over documents, each a pure function of the loaded
//! state: folding a directory's parsed documents into one merged view,
//! validating and applying an edit, projecting settings outward, subtracting
//! values, resetting an interface, filtering live interface names, and
//! planning the commit of a merged document.

use vstd::prelude::*;
use crate::text::{lex_le, str_eq, str_lex_le, str_starts_with, is_prefix_of};
use crate::model::{
    NicV, NicOutput, NicOutputV, NetplanYaml, DocV, names_of, nic_to_output, output_to_nic,
    unset_nic, clone_string,
};
use crate::merge::{spec_merge, set_entry, sub_entries, find_entry_index, contains_str};
use crate::validate::{
    validate_edit, edit_valid, addrs_ok, gw_ok, ns_ok, gw_conflict, mode_conflict, first_failing,
    ip_net_pred, ip_addr_pred,
};
use crate::codec::{ser_doc, parse_doc_spec};
use crate::errors::IfError;

verus! {

/// Folds the documents parsed from `cs` over `acc`, in order.
pub open spec fn load_fold(acc: DocV, cs: Seq<Seq<char>>) -> Option<DocV>
    decreases cs.len(),
{
    if cs.len() == 0 {
        Some(acc)
    } else {
        match parse_doc_spec(cs[0]) {
            Some(d) => load_fold(spec_merge(acc, d), cs.skip(1)),
            None => None,
        }
    }
}

/// The merged view of a directory's file contents, if every file parses.
pub open spec fn load_spec(cs: Seq<Seq<char>>) -> Option<DocV> {
    if cs.len() == 0 {
        None
    } else {
        match parse_doc_spec(cs[0]) {
            Some(d) => load_fold(d, cs.skip(1)),
            None => None,
        }
    }
}

/// Parses every document text, in the caller's order, and folds them into
/// one merged view under the last-wins rules. An empty directory yields the
/// not-found failure; an unparseable file surfaces as malformed.
pub fn load_netplan_yaml(contents: &Vec<String>) -> (r: Result<NetplanYaml, IfError>)
    ensures
        contents@.len() == 0 ==> r == Result::<NetplanYaml, IfError>::Err(IfError::ConfigNotFound),
        contents@.len() > 0 ==> match load_spec(contents.deep_view()) {
            Some(dv) => r is Ok && r->Ok_0.deep_view() == dv,
            None => r matches Err(e) && e matches IfError::MalformedConfig(_),
        },
{
    let ghost cs = contents.deep_view();
    if contents.len() == 0 {
        return Err(IfError::ConfigNotFound);
    }
    assert(cs[0] == contents@[0]@);
    let mut doc = match NetplanYaml::parse(contents[0].as_str()) {
        Ok(d) => d,
        Err(e) => {
            return Err(e);
        },
    };
    let mut i: usize = 1;
    assert(cs.skip(1).skip(0) =~= cs.skip(1));
    while i < contents.len()
        invariant
            1 <= i <= contents.len(),
            cs == contents.deep_view(),
            load_spec(cs) == load_fold(doc.deep_view(), cs.skip(i as int)),
        decreases contents.len() - i,
    {
        let ghost rest = cs.skip(i as int);
        assert(rest[0] == cs[i as int]);
        assert(rest.skip(1) =~= cs.skip(i as int + 1));
        assert(cs[i as int] == contents@[i as int]@);
        let next = match NetplanYaml::parse(contents[i].as_str()) {
            Ok(d) => d,
            Err(e) => {
                assert(load_fold(doc.deep_view(), rest) is None);
                return Err(e);
            },
        };
        doc.merge(next);
        i = i + 1;
    }
    assert(cs.skip(cs.len() as int).len() == 0);
    Ok(doc)
}

/// Sets the named interface's whole settings from the edit, after
/// validating it against the merged document. On any validation failure the
/// document is left untouched.
pub fn set(doc: &mut NetplanYaml, ifname: &str, edit: &NicOutput) -> (r: Result<(), IfError>)
    ensures
        r is Ok <==> edit_valid(old(doc).deep_view().ethernets, ifname@, edit.deep_view()),
        r is Ok ==> final(doc).deep_view() == (DocV {
            ethernets: set_entry(
                old(doc).deep_view().ethernets,
                ifname@,
                output_to_nic(edit.deep_view()),
            ),
            ..old(doc).deep_view()
        }),
        r is Err ==> *final(doc) == *old(doc),
        !addrs_ok(edit.deep_view()) ==> (r matches Err(err) && err matches IfError::InvalidAddress(
            v,
        ) && v@ == edit.deep_view().addresses->Some_0[first_failing(
            edit.deep_view().addresses->Some_0,
            ip_net_pred(),
        )]),
        addrs_ok(edit.deep_view()) && !gw_ok(edit.deep_view()) ==> (r matches Err(err)
            && err matches IfError::InvalidAddress(v) && v@ == edit.deep_view().gateway4->Some_0),
        addrs_ok(edit.deep_view()) && gw_ok(edit.deep_view()) && gw_conflict(
            old(doc).deep_view().ethernets,
            ifname@,
            edit.deep_view(),
        ) ==> r == Result::<(), IfError>::Err(IfError::GatewayConflict),
        addrs_ok(edit.deep_view()) && gw_ok(edit.deep_view()) && !gw_conflict(
            old(doc).deep_view().ethernets,
            ifname@,
            edit.deep_view(),
        ) && !ns_ok(edit.deep_view()) ==> (r matches Err(err) && err matches
            IfError::InvalidAddress(v) && v@ == edit.deep_view().nameservers->Some_0[first_failing(
            edit.deep_view().nameservers->Some_0,
            ip_addr_pred(),
        )]),
        addrs_ok(edit.deep_view()) && gw_ok(edit.deep_view()) && !gw_conflict(
            old(doc).deep_view().ethernets,
            ifname@,
            edit.deep_view(),
        ) && ns_ok(edit.deep_view()) && mode_conflict(edit.deep_view()) ==> r == Result::<
            (),
            IfError,
        >::Err(IfError::ConflictingAddressMode),
{
    match validate_edit(doc, ifname, edit) {
        Ok(()) => {},
        Err(e) => {
            return Err(e);
        },
    }
    let nic = edit.to();
    doc.set_interface(ifname, nic);
    Ok(())
}

/// The whole interface mapping projected to the simplified shape.
pub open spec fn project_all(s: Seq<(Seq<char>, NicV)>) -> Seq<(Seq<char>, NicOutputV)> {
    s.map_values(|p: (Seq<char>, NicV)| (p.0, nic_to_output(p.1)))
}

/// Projects the named interface's settings, or every interface's, to the
/// simplified shape. Asking for an absent name yields nothing found, not an
/// error.
pub fn get(doc: &NetplanYaml, ifname: &Option<String>) -> (r: Option<Vec<(String, NicOutput)>>)
    ensures
        match ifname {
            Some(n) => {
                if names_of(doc.deep_view().ethernets).contains(n@) {
                    r is Some && r->Some_0.deep_view().len() == 1 && exists|j: int|
                        0 <= j < doc.deep_view().ethernets.len()
                            && (#[trigger] doc.deep_view().ethernets[j]).0 == n@
                            && r->Some_0.deep_view()[0] == (
                        n@,
                        nic_to_output(doc.deep_view().ethernets[j].1),
                    )
                } else {
                    r is None
                }
            },
            None => r is Some && r->Some_0.deep_view() == project_all(doc.deep_view().ethernets),
        },
{
    let ghost eths = doc.deep_view().ethernets;
    proof {
        assert(forall|i: int| 0 <= i < eths.len() ==> names_of(eths)[i] == eths[i].0);
        if ifname is Some && names_of(eths).contains(ifname->Some_0@) {
            let i = choose|i: int|
                0 <= i < names_of(eths).len() && names_of(eths)[i] == ifname->Some_0@;
            assert(eths[i].0 == ifname->Some_0@);
        }
    }
    match ifname {
        Some(n) => {
            match find_entry_index(&doc.network.ethernets, n.as_str()) {
                Some(j) => {
                    let out = NicOutput::from(&doc.network.ethernets[j].1);
                    let mut v: Vec<(String, NicOutput)> = Vec::new();
                    v.push((clone_string(n), out));
                    assert(v.deep_view() =~= seq![(n@, nic_to_output(eths[j as int].1))]);
                    assert(names_of(eths)[j as int] == eths[j as int].0);
                    Some(v)
                },
                None => {
                    assert(!names_of(eths).contains(n@));
                    None
                },
            }
        },
        None => {
            let mut v: Vec<(String, NicOutput)> = Vec::new();
            let mut i: usize = 0;
            while i < doc.network.ethernets.len()
                invariant
                    i <= doc.network.ethernets.len(),
                    eths == doc.deep_view().ethernets,
                    v.deep_view() =~= project_all(eths).subrange(0, i as int),
                decreases doc.network.ethernets.len() - i,
            {
                let name = clone_string(&doc.network.ethernets[i].0);
                let out = NicOutput::from(&doc.network.ethernets[i].1);
                assert(name@ == eths[i as int].0);
                assert(out.deep_view() == nic_to_output(eths[i as int].1));
                let ghost before = v.deep_view();
                let ghost vs = v@;
                v.push((name, out));
                proof {
                    assert(v@ == vs.push((name, out)));
                    assert forall|k: int| 0 <= k < v@.len()
                        implies v.deep_view()[k] == before.push(
                        (eths[i as int].0, nic_to_output(eths[i as int].1)),
                    )[k] by {
                        if k < vs.len() {
                            assert(v@[k] == vs[k]);
                        } else {
                            assert(v@[k] == (name, out));
                        }
                    }
                    assert(v.deep_view() =~= before.push(
                        (eths[i as int].0, nic_to_output(eths[i as int].1)),
                    ));
                    assert(project_all(eths)[i as int] == (
                        eths[i as int].0,
                        nic_to_output(eths[i as int].1),
                    ));
                }
                i = i + 1;
                assert(v.deep_view() =~= project_all(eths).subrange(0, i as int));
            }
            assert(v.deep_view() =~= project_all(eths));
            Some(v)
        },
    }
}

/// Subtracts the edit's values from the named interface of the document.
pub fn delete(doc: &mut NetplanYaml, ifname: &str, edit: &NicOutput) -> (r: Result<(), IfError>)
    ensures
        names_of(old(doc).deep_view().ethernets).contains(ifname@) ==> r is Ok
            && final(doc).deep_view() == (DocV {
            ethernets: sub_entries(old(doc).deep_view().ethernets, ifname@, edit.deep_view()),
            ..old(doc).deep_view()
        }),
        !names_of(old(doc).deep_view().ethernets).contains(ifname@) ==> r == Result::<
            (),
            IfError,
        >::Err(IfError::InterfaceNotFound) && *final(doc) == *old(doc),
{
    doc.delete(ifname, edit)
}

/// Resets the named interface to all-unset settings, provided the name is a
/// live interface of the host; otherwise the document is left untouched.
pub fn init(doc: &mut NetplanYaml, ifname: &str, live_names: &Vec<String>) -> (r: Result<
    (),
    IfError,
>)
    ensures
        live_names.deep_view().contains(ifname@) ==> r is Ok && final(doc).deep_view() == (DocV {
            ethernets: set_entry(old(doc).deep_view().ethernets, ifname@, unset_nic()),
            ..old(doc).deep_view()
        }),
        !live_names.deep_view().contains(ifname@) ==> r == Result::<(), IfError>::Err(
            IfError::InterfaceNotFound,
        ) && *final(doc) == *old(doc),
{
    if !contains_str(live_names, ifname) {
        return Err(IfError::InterfaceNotFound);
    }
    doc.init_interface(ifname);
    Ok(())
}

/// The names that carry the prefix, in their original order; no prefix
/// keeps them all.
pub open spec fn keep_prefixed(l: Seq<Seq<char>>, p: Option<Seq<char>>) -> Seq<Seq<char>>
    decreases l.len(),
{
    if l.len() == 0 {
        l
    } else {
        let keep = match p {
            Some(pre) => is_prefix_of(pre, l[0]),
            None => true,
        };
        if keep {
            seq![l[0]] + keep_prefixed(l.skip(1), p)
        } else {
            keep_prefixed(l.skip(1), p)
        }
    }
}

/// Filters the live interface names by an optional name prefix.
pub fn get_interface_names(names: &Vec<String>, arg: &Option<String>) -> (r: Vec<String>)
    ensures
        r.deep_view() == keep_prefixed(names.deep_view(), arg.deep_view()),
{
    let ghost l = names.deep_view();
    let ghost p = arg.deep_view();
    let mut out: Vec<String> = Vec::new();
    let mut i: usize = 0;
    assert(l.skip(0) =~= l);
    assert(out.deep_view() + keep_prefixed(l, p) =~= keep_prefixed(l, p));
    while i < names.len()
        invariant
            i <= names.len(),
            l == names.deep_view(),
            p == arg.deep_view(),
            keep_prefixed(l, p) == out.deep_view() + keep_prefixed(l.skip(i as int), p),
        decreases names.len() - i,
    {
        let ghost rest = l.skip(i as int);
        assert(rest[0] == l[i as int]);
        assert(rest.skip(1) =~= l.skip(i as int + 1));
        let keep = match arg {
            Some(pre) => str_starts_with(names[i].as_str(), pre.as_str()),
            None => true,
        };
        if keep {
            let ghost before = out.deep_view();
            out.push(clone_string(&names[i]));
            assert(out.deep_view() =~= before + seq![l[i as int]]);
            assert(before + (seq![rest[0]] + keep_prefixed(rest.skip(1), p)) =~= (before
                + seq![rest[0]]) + keep_prefixed(rest.skip(1), p));
        }
        i = i + 1;
    }
    assert(l.skip(l.len() as int).len() == 0);
    assert(keep_prefixed(l, p) =~= out.deep_view());
    out
}

/// Sorted insertion of one name into a name list.
pub open spec fn insert_sorted_name(s: Seq<Seq<char>>, n: Seq<char>) -> Seq<Seq<char>>
    decreases s.len(),
{
    if s.len() == 0 {
        seq![n]
    } else if lex_le(n, s[0]) {
        seq![n] + s
    } else {
        seq![s[0]] + insert_sorted_name(s.skip(1), n)
    }
}

/// Insertion sort of a name list.
pub open spec fn sort_names_spec(s: Seq<Seq<char>>) -> Seq<Seq<char>>
    decreases s.len(),
{
    if s.len() == 0 {
        s
    } else {
        insert_sorted_name(sort_names_spec(s.drop_last()), s.last())
    }
}

proof fn lemma_insert_sorted_name_at(s: Seq<Seq<char>>, n: Seq<char>, j: int)
    requires
        0 <= j <= s.len(),
        forall|k: int| 0 <= k < j ==> !lex_le(n, s[k]),
        j < s.len() ==> lex_le(n, s[j]),
    ensures
        insert_sorted_name(s, n) == s.insert(j, n),
    decreases j,
{
    if j == 0 {
        if s.len() == 0 {
            assert(insert_sorted_name(s, n) =~= s.insert(0, n));
        } else {
            assert(seq![n] + s =~= s.insert(0, n));
        }
    } else {
        lemma_insert_sorted_name_at(s.skip(1), n, j - 1);
        assert(seq![s[0]] + s.skip(1).insert(j - 1, n) =~= s.insert(j, n));
    }
}

/// Sorts file names lexicographically, the order in which the loader folds
/// documents and the committer picks the primary file.
pub fn sort_names(v: Vec<String>) -> (r: Vec<String>)
    ensures
        r.deep_view() == sort_names_spec(v.deep_view()),
{
    let ghost orig = v.deep_view();
    let mut v = v;
    let mut out: Vec<String> = Vec::new();
    while v.len() > 0
        invariant
            v@.len() <= orig.len(),
            v.deep_view() =~= orig.subrange(orig.len() - v@.len(), orig.len() as int),
            out.deep_view() == sort_names_spec(orig.subrange(0, orig.len() - v@.len())),
        decreases v.len(),
    {
        let ghost done = orig.len() - v@.len();
        let ghost vv = v.deep_view();
        let s = v.remove(0);
        let ghost sv = s@;
        assert(sv == vv[0]);
        assert(sv == orig[done]);
        assert forall|k: int| 0 <= k < v@.len() implies v.deep_view()[k] == vv[k + 1] by {}
        assert(v.deep_view() =~= orig.subrange(done + 1, orig.len() as int));
        let ghost sorted_prefix = out.deep_view();
        let mut j: usize = 0;
        while j < out.len() && !str_lex_le(s.as_str(), out[j].as_str())
            invariant
                j <= out.len(),
                out.deep_view() == sorted_prefix,
                s@ == sv,
                forall|k: int| 0 <= k < j ==> !lex_le(sv, sorted_prefix[k]),
            decreases out.len() - j,
        {
            j = j + 1;
        }
        assert(j < out.len() ==> lex_le(sv, sorted_prefix[j as int]));
        let ghost outs = out@;
        out.insert(j, s);
        proof {
            lemma_insert_sorted_name_at(sorted_prefix, sv, j as int);
            assert forall|k: int| 0 <= k < out@.len()
                implies out.deep_view()[k] == sorted_prefix.insert(j as int, sv)[k] by {
                assert(out@ == outs.insert(j as int, s));
                if k < j as int {
                    assert(out@[k] == outs[k]);
                } else if k > j as int {
                    assert(out@[k] == outs[k - 1]);
                } else {
                    assert(out@[k] == s);
                }
            }
            assert(out.deep_view() =~= sorted_prefix.insert(j as int, sv));
            let pre = orig.subrange(0, done);
            let pre1 = orig.subrange(0, done + 1);
            assert(pre1.drop_last() =~= pre);
            assert(pre1.last() == sv);
            assert(sort_names_spec(pre1) == insert_sorted_name(sort_names_spec(pre), sv));
        }
    }
    assert(orig.subrange(0, orig.len() as int) =~= orig);
    out
}

/// The fixed file name used when the configuration directory is empty.
pub open spec fn default_primary() -> Seq<char> {
    seq!['0', '1', '-', 'n', 'e', 't', 'c', 'f', 'g', '.', 'y', 'a', 'm', 'l']
}

/// The names of `l` other than `n`, in their original order.
pub open spec fn drop_name(l: Seq<Seq<char>>, n: Seq<char>) -> Seq<Seq<char>>
    decreases l.len(),
{
    if l.len() == 0 {
        l
    } else if l[0] == n {
        drop_name(l.skip(1), n)
    } else {
        seq![l[0]] + drop_name(l.skip(1), n)
    }
}

/// What one commit run will do: the primary file's name, the exact bytes to
/// stage and promote, and the secondary files to delete afterwards.
pub struct CommitPlan {
    /// The file that holds the whole configuration after the commit.
    pub primary: String,
    /// The serialized document, written to the staging file and copied over
    /// the primary.
    pub content: String,
    /// Every other file previously present, deleted after promotion.
    pub to_delete: Vec<String>,
}

/// Plans a commit of the merged document over the files currently in the
/// directory (in loader order): the first file, or the fixed default name
/// for an empty directory, becomes the primary; the document's serialized
/// text is the content; every other file is deleted.
pub fn commit_plan(doc: &NetplanYaml, files_sorted: &Vec<String>) -> (r: CommitPlan)
    ensures
        r.primary@ == if files_sorted.deep_view().len() > 0 {
            files_sorted.deep_view()[0]
        } else {
            default_primary()
        },
        r.content@ == ser_doc(doc.deep_view()),
        r.to_delete.deep_view() == drop_name(files_sorted.deep_view(), r.primary@),
{
    let ghost fs = files_sorted.deep_view();
    let primary = if files_sorted.len() > 0 {
        clone_string(&files_sorted[0])
    } else {
        let p = String::from_str("01-netcfg.yaml");
        proof {
            reveal_strlit("01-netcfg.yaml");
        }
        assert(p@ =~= default_primary());
        p
    };
    let content = doc.to_text();
    let ghost pv = primary@;
    let mut to_delete: Vec<String> = Vec::new();
    let mut i: usize = 0;
    assert(fs.skip(0) =~= fs);
    assert(to_delete.deep_view() + drop_name(fs, pv) =~= drop_name(fs, pv));
    while i < files_sorted.len()
        invariant
            i <= files_sorted.len(),
            fs == files_sorted.deep_view(),
            pv == primary@,
            drop_name(fs, pv) == to_delete.deep_view() + drop_name(fs.skip(i as int), pv),
        decreases files_sorted.len() - i,
    {
        let ghost rest = fs.skip(i as int);
        assert(rest[0] == fs[i as int]);
        assert(rest.skip(1) =~= fs.skip(i as int + 1));
        if !str_eq(files_sorted[i].as_str(), primary.as_str()) {
            let ghost before = to_delete.deep_view();
            to_delete.push(clone_string(&files_sorted[i]));
            assert(to_delete.deep_view() =~= before + seq![fs[i as int]]);
            assert(before + (seq![rest[0]] + drop_name(rest.skip(1), pv)) =~= (before
                + seq![rest[0]]) + drop_name(rest.skip(1), pv));
        }
        i = i + 1;
    }
    assert(fs.skip(fs.len() as int).len() == 0);
    assert(drop_name(fs, pv) =~= to_delete.deep_view());
    CommitPlan { primary, content, to_delete }
}

/// Committing a document over a directory that holds exactly one file
/// rewrites that file in place and deletes nothing: the directory's file
/// set is unchanged by the commit cycle.
pub proof fn lemma_commit_idempotent(files: Seq<Seq<char>>)
    requires
        files.len() == 1,
    ensures
        drop_name(files, files[0]).len() == 0,
{
    assert(files[0] == files[0]);
    assert(files.skip(1).len() == 0);
    assert(drop_name(files.skip(1), files[0]).len() == 0);
    assert(drop_name(files, files[0]) == drop_name(files.skip(1), files[0]));
}

} // verus!
