use vstd::prelude::*;

use crate::discovery::union_flag_values;
use crate::strset::{lemma_sorted_no_duplicates, lemma_sorted_set_unique, strict_sorted, StrSet};

verus! {

/// A build-system directive produced by link emission.
pub enum Directive {
    /// Add a directory to the linker search path.
    SearchPath(String),
    /// Link one native library by name.
    LinkLib(String),
}

/// The mathematical value of a directive.
pub enum DirectiveView {
    SearchPath(Seq<char>),
    LinkLib(Seq<char>),
}

impl View for Directive {
    type V = DirectiveView;

    open spec fn view(&self) -> DirectiveView {
        match self {
            Directive::SearchPath(p) => DirectiveView::SearchPath(p@),
            Directive::LinkLib(n) => DirectiveView::LinkLib(n@),
        }
    }
}

impl DeepView for Directive {
    type V = DirectiveView;

    open spec fn deep_view(&self) -> DirectiveView {
        self.view()
    }
}

/// The libraries linked on every run, whatever discovery found: the
/// secondary native runtime, its logging component, and the UUID utility
/// library.
pub open spec fn required_lib_names() -> Seq<Seq<char>> {
    seq!["spdk_env_dpdk"@, "spdk_log"@, "uuid"@]
}

/// Adds the three always-required library names to the discovered set.
pub fn add_required_libs(names: &mut StrSet)
    requires
        old(names).wf(),
    ensures
        final(names).wf(),
        final(names).set() == old(names).set() + required_lib_names().to_set(),
{
    names.insert("spdk_env_dpdk".to_owned());
    names.insert("spdk_log".to_owned());
    names.insert("uuid".to_owned());
    proof {
        let req = required_lib_names();
        assert(req.contains(req[0]));
        assert(req.contains(req[1]));
        assert(req.contains(req[2]));
        assert forall|x: Seq<char>| req.to_set().contains(x) implies (x == req[0] || x == req[1]
            || x == req[2]) by {
            let k = choose|k: int| 0 <= k < req.len() && req[k] == x;
        }
        assert(names.set() =~= old(names).set() + req.to_set());
    }
}

/// The directives for given search paths and library names: one search-path
/// directive per path, then one library directive per name, in the given
/// order.
pub open spec fn spec_link_directives(
    search: Seq<Seq<char>>,
    names: Seq<Seq<char>>,
) -> Seq<DirectiveView> {
    search.map_values(|p: Seq<char>| DirectiveView::SearchPath(p)) + names.map_values(
        |n: Seq<char>| DirectiveView::LinkLib(n),
    )
}

/// Emits one search-path directive per discovered path and one library
/// directive per library name, in the sets' deterministic order.
pub fn link_directives(search: &StrSet, names: &StrSet) -> (ds: Vec<Directive>)
    ensures
        ds.deep_view() == spec_link_directives(search.seq(), names.seq()),
{
    let mut ds: Vec<Directive> = Vec::new();
    let sn = search.len();
    let mut i: usize = 0;
    let ghost target = spec_link_directives(search.seq(), names.seq());
    proof {
        assert(ds.deep_view() =~= target.take(0));
    }
    while i < sn
        invariant
            0 <= i <= sn,
            sn == search.seq().len(),
            target == spec_link_directives(search.seq(), names.seq()),
            target.len() == search.seq().len() + names.seq().len(),
            ds.deep_view() == target.take(i as int),
        decreases sn - i,
    {
        let ghost prev = ds@;
        let ghost prev_deep = ds.deep_view();
        let item = Directive::SearchPath(search.get(i).clone());
        let ghost item_view = item@;
        ds.push(item);
        proof {
            assert(ds.deep_view() =~= prev_deep.push(item_view)) by {
                assert(ds@ == prev.push(ds@[prev.len() as int]));
                assert forall|j: int| 0 <= j < ds.deep_view().len() implies ds.deep_view()[j]
                    == prev_deep.push(item_view)[j] by {
                    if j < prev.len() {
                        assert(ds@[j] == prev[j]);
                    } else {
                        assert(ds@[j]@ == item_view);
                    }
                }
            }
            assert(prev_deep.push(item_view) =~= target.take(i + 1)) by {
                assert(prev_deep.len() == i);
                assert(item_view == DirectiveView::SearchPath(search.seq()[i as int]));
                assert(target[i as int] == DirectiveView::SearchPath(search.seq()[i as int]));
                assert forall|j: int| 0 <= j < i + 1 implies prev_deep.push(item_view)[j]
                    == target.take(i + 1)[j] by {
                    assert(target.take(i + 1)[j] == target[j]);
                    if j < i {
                        assert(prev_deep[j] == target.take(i as int)[j]);
                    }
                }
            }
        }
        i = i + 1;
    }
    let nn = names.len();
    let mut k: usize = 0;
    while k < nn
        invariant
            0 <= k <= nn,
            sn == search.seq().len(),
            nn == names.seq().len(),
            target == spec_link_directives(search.seq(), names.seq()),
            target.len() == search.seq().len() + names.seq().len(),
            ds.deep_view() == target.take(sn + k as int),
        decreases nn - k,
    {
        let ghost prev = ds@;
        let ghost prev_deep = ds.deep_view();
        let item = Directive::LinkLib(names.get(k).clone());
        let ghost item_view = item@;
        ds.push(item);
        proof {
            assert(ds.deep_view() =~= prev_deep.push(item_view)) by {
                assert(ds@ == prev.push(ds@[prev.len() as int]));
                assert forall|j: int| 0 <= j < ds.deep_view().len() implies ds.deep_view()[j]
                    == prev_deep.push(item_view)[j] by {
                    if j < prev.len() {
                        assert(ds@[j] == prev[j]);
                    } else {
                        assert(ds@[j]@ == item_view);
                    }
                }
            }
            assert(prev_deep.push(item_view) =~= target.take(sn + k + 1)) by {
                assert(prev_deep.len() == sn + k);
                assert(item_view == DirectiveView::LinkLib(names.seq()[k as int]));
                assert(target[sn + k as int] == DirectiveView::LinkLib(names.seq()[k as int]));
                assert forall|j: int| 0 <= j < sn + k + 1 implies prev_deep.push(item_view)[j]
                    == target.take(sn + k + 1)[j] by {
                    assert(target.take(sn + k + 1)[j] == target[j]);
                    if j < sn + k {
                        assert(prev_deep[j] == target.take(sn + k as int)[j]);
                    }
                }
            }
        }
        k = k + 1;
    }
    proof {
        assert(target.take(sn + nn as int) =~= target);
    }
    ds
}

/// The textual build-system line for a directive: a fixed prefix followed
/// by the path or the library name.
pub open spec fn spec_directive_line(d: DirectiveView) -> Seq<char> {
    match d {
        DirectiveView::SearchPath(p) => "cargo:rustc-link-search="@ + p,
        DirectiveView::LinkLib(n) => "cargo:rustc-link-lib="@ + n,
    }
}

/// Renders one directive as the line handed to the build system.
pub fn directive_line(d: &Directive) -> (line: String)
    ensures
        line@ == spec_directive_line(d@),
{
    match d {
        Directive::SearchPath(p) => {
            let mut line = "cargo:rustc-link-search=".to_owned();
            line.append(p.as_str());
            line
        },
        Directive::LinkLib(n) => {
            let mut line = "cargo:rustc-link-lib=".to_owned();
            line.append(n.as_str());
            line
        },
    }
}

/// The lines for a whole directive sequence, in order.
pub open spec fn spec_directive_lines(ds: Seq<DirectiveView>) -> Seq<Seq<char>> {
    ds.map_values(|d: DirectiveView| spec_directive_line(d))
}

/// Renders the full list of link-directive lines for the given search paths
/// and library names.
pub fn link_directive_lines(search: &StrSet, names: &StrSet) -> (lines: Vec<String>)
    ensures
        lines.deep_view() == spec_directive_lines(
            spec_link_directives(search.seq(), names.seq()),
        ),
{
    let ds = link_directives(search, names);
    let ghost dv = ds.deep_view();
    let ghost target = spec_directive_lines(dv);
    let mut lines: Vec<String> = Vec::new();
    let n = ds.len();
    let mut i: usize = 0;
    proof {
        assert(lines.deep_view() =~= target.take(0));
    }
    while i < n
        invariant
            0 <= i <= n,
            n == ds@.len(),
            dv == ds.deep_view(),
            target == spec_directive_lines(dv),
            target.len() == dv.len(),
            lines.deep_view() == target.take(i as int),
        decreases n - i,
    {
        let line = directive_line(&ds[i]);
        let ghost line_view = line@;
        let ghost prev = lines@;
        let ghost prev_deep = lines.deep_view();
        proof {
            assert(ds@[i as int]@ == dv[i as int]);
            assert(line_view == target[i as int]);
        }
        lines.push(line);
        proof {
            assert(lines.deep_view() =~= prev_deep.push(line_view)) by {
                assert(lines@ == prev.push(lines@[prev.len() as int]));
                assert forall|j: int| 0 <= j < lines.deep_view().len() implies lines.deep_view()[j]
                    == prev_deep.push(line_view)[j] by {
                    if j < prev.len() {
                        assert(lines@[j] == prev[j]);
                    } else {
                        assert(lines@[j]@ == line_view);
                    }
                }
            }
            assert(prev_deep.push(line_view) =~= target.take(i + 1)) by {
                assert(prev_deep.len() == i);
                assert forall|j: int| 0 <= j < i + 1 implies prev_deep.push(line_view)[j]
                    == target.take(i + 1)[j] by {
                    assert(target.take(i + 1)[j] == target[j]);
                    if j < i {
                        assert(prev_deep[j] == target.take(i as int)[j]);
                    }
                }
            }
        }
        i = i + 1;
    }
    proof {
        assert(target.take(n as int) =~= target);
    }
    lines
}

/// Directive emission over sorted sets repeats no directive: each search
/// path and each library name appears exactly once.
pub proof fn lemma_directives_no_duplicates(search: Seq<Seq<char>>, names: Seq<Seq<char>>)
    requires
        strict_sorted(search),
        strict_sorted(names),
    ensures
        spec_link_directives(search, names).no_duplicates(),
{
    lemma_sorted_no_duplicates(search);
    lemma_sorted_no_duplicates(names);
    let ds = spec_link_directives(search, names);
    assert forall|i: int, j: int| 0 <= i < ds.len() && 0 <= j < ds.len() && i != j implies ds[i]
        != ds[j] by {
        let sl = search.len() as int;
        if i < sl && j < sl {
            assert(ds[i] == DirectiveView::SearchPath(search[i]));
            assert(ds[j] == DirectiveView::SearchPath(search[j]));
        } else if i >= sl && j >= sl {
            assert(ds[i] == DirectiveView::LinkLib(names[i - sl]));
            assert(ds[j] == DirectiveView::LinkLib(names[j - sl]));
        } else if i < sl {
            assert(ds[i] == DirectiveView::SearchPath(search[i]));
            assert(ds[j] == DirectiveView::LinkLib(names[j - sl]));
        } else {
            assert(ds[i] == DirectiveView::LinkLib(names[i - sl]));
            assert(ds[j] == DirectiveView::SearchPath(search[j]));
        }
    }
}

/// Re-running link emission on unchanged tool outputs yields the identical
/// lines: any two sorted results of discovery over the same outputs, with
/// the required libraries added, render to the same line sequence.
pub proof fn lemma_emission_deterministic(
    outs: Seq<Seq<char>>,
    search1: Seq<Seq<char>>,
    names1: Seq<Seq<char>>,
    search2: Seq<Seq<char>>,
    names2: Seq<Seq<char>>,
)
    requires
        strict_sorted(search1),
        strict_sorted(search2),
        strict_sorted(names1),
        strict_sorted(names2),
        search1.to_set() == union_flag_values(outs, 'L'),
        search2.to_set() == union_flag_values(outs, 'L'),
        names1.to_set() == union_flag_values(outs, 'l') + required_lib_names().to_set(),
        names2.to_set() == union_flag_values(outs, 'l') + required_lib_names().to_set(),
    ensures
        spec_directive_lines(spec_link_directives(search1, names1)) == spec_directive_lines(
            spec_link_directives(search2, names2),
        ),
{
    lemma_sorted_set_unique(search1, search2);
    lemma_sorted_set_unique(names1, names2);
}

} // verus!
