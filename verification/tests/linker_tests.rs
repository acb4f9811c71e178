use spdk_rs::discovery::discover_flag_values;
use spdk_rs::linker::{add_required_libs, link_directive_lines, link_directives, Directive};
use spdk_rs::strset::StrSet;

fn outputs(strs: &[&str]) -> Vec<String> {
    strs.iter().map(|s| s.to_string()).collect()
}

#[test]
fn directives_for_one_libs_output() {
    // One search-path directive for the discovered path, one library
    // directive per discovered name, the three always-required libraries,
    // and no duplicates.
    let outs = outputs(&["-Lpath1 -lnamea -lnameb"]);
    let search = discover_flag_values(&outs, 'L');
    let mut names = discover_flag_values(&outs, 'l');
    add_required_libs(&mut names);
    let ds = link_directives(&search, &names);
    let expected = vec![
        ("search", "path1"),
        ("lib", "namea"),
        ("lib", "nameb"),
        ("lib", "spdk_env_dpdk"),
        ("lib", "spdk_log"),
        ("lib", "uuid"),
    ];
    assert_eq!(ds.len(), expected.len());
    for (d, (kind, value)) in ds.iter().zip(expected.iter()) {
        match d {
            Directive::SearchPath(p) => {
                assert_eq!(*kind, "search");
                assert_eq!(p, value);
            }
            Directive::LinkLib(n) => {
                assert_eq!(*kind, "lib");
                assert_eq!(n, value);
            }
        }
    }
}

#[test]
fn directive_lines_have_fixed_prefixes() {
    let outs = outputs(&["-Lpath1 -lnamea -lnameb"]);
    let search = discover_flag_values(&outs, 'L');
    let mut names = discover_flag_values(&outs, 'l');
    add_required_libs(&mut names);
    let lines = link_directive_lines(&search, &names);
    assert_eq!(
        lines,
        vec![
            "cargo:rustc-link-search=path1",
            "cargo:rustc-link-lib=namea",
            "cargo:rustc-link-lib=nameb",
            "cargo:rustc-link-lib=spdk_env_dpdk",
            "cargo:rustc-link-lib=spdk_log",
            "cargo:rustc-link-lib=uuid",
        ]
    );
}

#[test]
fn directive_lines_hold_no_duplicates() {
    let outs = outputs(&["-Lpath1 -lspdk_log -luuid -Lpath1"]);
    let search = discover_flag_values(&outs, 'L');
    let mut names = discover_flag_values(&outs, 'l');
    add_required_libs(&mut names);
    let lines = link_directive_lines(&search, &names);
    let mut deduped = lines.clone();
    deduped.sort();
    deduped.dedup();
    assert_eq!(lines.len(), deduped.len());
    // A discovered name that is also always-required is emitted once.
    assert_eq!(
        lines,
        vec![
            "cargo:rustc-link-search=path1",
            "cargo:rustc-link-lib=spdk_env_dpdk",
            "cargo:rustc-link-lib=spdk_log",
            "cargo:rustc-link-lib=uuid",
        ]
    );
}

#[test]
fn required_libs_emitted_without_discovery() {
    let search = StrSet::new();
    let mut names = StrSet::new();
    add_required_libs(&mut names);
    let lines = link_directive_lines(&search, &names);
    assert_eq!(
        lines,
        vec![
            "cargo:rustc-link-lib=spdk_env_dpdk",
            "cargo:rustc-link-lib=spdk_log",
            "cargo:rustc-link-lib=uuid",
        ]
    );
}

#[test]
fn emission_is_idempotent() {
    // Re-running the whole emission on unchanged tool outputs produces
    // byte-identical lines, also when the outputs arrive permuted.
    let outs = outputs(&["-Lpath2 -lbeta", "-Lpath1 -lalpha -lbeta"]);
    let permuted = outputs(&["-Lpath1 -lalpha -lbeta", "-Lpath2 -lbeta"]);
    let mut runs = Vec::new();
    for o in [&outs, &outs, &permuted] {
        let search = discover_flag_values(o, 'L');
        let mut names = discover_flag_values(o, 'l');
        add_required_libs(&mut names);
        runs.push(link_directive_lines(&search, &names));
    }
    assert_eq!(runs[0], runs[1]);
    assert_eq!(runs[0], runs[2]);
}
