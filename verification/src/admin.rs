//! The line-rewrite core of the service-file text patches: every line
//! carrying a managed prefix is dropped, and the replacement lines are
//! appended at the end. The surrounding file I/O and service restarts stay
//! outside the library.

use vstd::prelude::*;
use crate::text::{is_prefix_of, str_starts_with};
use crate::model::clone_string;

verus! {

/// The lines that do not carry the prefix, in their original order.
pub open spec fn drop_prefixed(l: Seq<Seq<char>>, p: Seq<char>) -> Seq<Seq<char>>
    decreases l.len(),
{
    if l.len() == 0 {
        l
    } else if is_prefix_of(p, l[0]) {
        drop_prefixed(l.skip(1), p)
    } else {
        seq![l[0]] + drop_prefixed(l.skip(1), p)
    }
}

/// Rewrites a configuration file's lines: drops every line starting with
/// the managed prefix and appends the replacement lines at the end.
pub fn patch_config_lines(lines: &Vec<String>, prefix: &str, additions: &Vec<String>) -> (r: Vec<
    String,
>)
    ensures
        r.deep_view() == drop_prefixed(lines.deep_view(), prefix@) + additions.deep_view(),
{
    let ghost l = lines.deep_view();
    let ghost p = prefix@;
    let mut out: Vec<String> = Vec::new();
    let mut i: usize = 0;
    assert(l.skip(0) =~= l);
    assert(out.deep_view() + drop_prefixed(l, p) =~= drop_prefixed(l, p));
    while i < lines.len()
        invariant
            i <= lines.len(),
            l == lines.deep_view(),
            p == prefix@,
            drop_prefixed(l, p) == out.deep_view() + drop_prefixed(l.skip(i as int), p),
        decreases lines.len() - i,
    {
        let ghost rest = l.skip(i as int);
        assert(rest[0] == l[i as int]);
        assert(rest.skip(1) =~= l.skip(i as int + 1));
        if !str_starts_with(lines[i].as_str(), prefix) {
            let ghost before = out.deep_view();
            out.push(clone_string(&lines[i]));
            assert(out.deep_view() =~= before + seq![l[i as int]]);
            assert(before + (seq![rest[0]] + drop_prefixed(rest.skip(1), p)) =~= (before
                + seq![rest[0]]) + drop_prefixed(rest.skip(1), p));
        }
        i = i + 1;
    }
    assert(l.skip(l.len() as int).len() == 0);
    assert(drop_prefixed(l, p) =~= out.deep_view());
    let ghost kept = out.deep_view();
    let mut j: usize = 0;
    while j < additions.len()
        invariant
            j <= additions.len(),
            out.deep_view() =~= kept + additions.deep_view().subrange(0, j as int),
        decreases additions.len() - j,
    {
        let ghost before = out.deep_view();
        out.push(clone_string(&additions[j]));
        assert(out.deep_view() =~= before + seq![additions.deep_view()[j as int]]);
        j = j + 1;
        assert(out.deep_view() =~= kept + additions.deep_view().subrange(0, j as int));
    }
    assert(out.deep_view() =~= kept + additions.deep_view());
    out
}

} // verus!
