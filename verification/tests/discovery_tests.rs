use spdk_rs::discovery::discover_flag_values;
use spdk_rs::strset::StrSet;
use spdk_rs::tokens::{collect_flag_values, split_tokens};

fn items(s: &StrSet) -> Vec<String> {
    let mut v = Vec::new();
    let mut i = 0;
    while i < s.len() {
        v.push(s.get(i).clone());
        i += 1;
    }
    v
}

fn outputs(strs: &[&str]) -> Vec<String> {
    strs.iter().map(|s| s.to_string()).collect()
}

#[test]
fn splits_on_spaces() {
    assert_eq!(split_tokens("-Ifoo -Ibar"), vec!["-Ifoo", "-Ibar"]);
}

#[test]
fn splits_on_all_whitespace() {
    assert_eq!(split_tokens(" -Ifoo\t-Ibar\n"), vec!["-Ifoo", "-Ibar"]);
    assert_eq!(split_tokens("a  b\r\nc"), vec!["a", "b", "c"]);
}

#[test]
fn splits_empty_and_blank() {
    assert_eq!(split_tokens(""), Vec::<String>::new());
    assert_eq!(split_tokens(" \n\t"), Vec::<String>::new());
}

#[test]
fn collects_marked_flags_only() {
    let mut acc = StrSet::new();
    collect_flag_values("-O2 foo -DX -Iinc -Llib", 'I', &mut acc);
    assert_eq!(items(&acc), vec!["inc"]);
}

#[test]
fn collects_empty_flag_value() {
    let mut acc = StrSet::new();
    collect_flag_values("-I -Ifoo", 'I', &mut acc);
    assert_eq!(items(&acc), vec!["", "foo"]);
}

#[test]
fn bare_dash_is_discarded() {
    let mut acc = StrSet::new();
    collect_flag_values("- -x -", 'I', &mut acc);
    assert_eq!(items(&acc), Vec::<String>::new());
}

#[test]
fn trailing_newline_does_not_join_tokens() {
    let mut acc = StrSet::new();
    collect_flag_values("-Lpath1 -lnamea -lnameb\n", 'l', &mut acc);
    assert_eq!(items(&acc), vec!["namea", "nameb"]);
}

#[test]
fn merged_include_set_is_union() {
    // Two cflags outputs whose include sets overlap merge to exactly the
    // union, deduplicated and sorted.
    let outs = outputs(&["-Ifoo -Ibar", "-Ibar -Ibaz"]);
    let set = discover_flag_values(&outs, 'I');
    assert_eq!(items(&set), vec!["bar", "baz", "foo"]);
}

#[test]
fn discovery_is_order_independent() {
    let a = outputs(&["-Ifoo -Ibar", "-Ibar -Ibaz", "-Iqux"]);
    let b = outputs(&["-Iqux", "-Ibar -Ibaz", "-Ifoo -Ibar"]);
    assert_eq!(items(&discover_flag_values(&a, 'I')), items(&discover_flag_values(&b, 'I')));
}

#[test]
fn repeated_flags_collapse() {
    let outs = outputs(&["-Iinc -Iinc", "-Iinc"]);
    let set = discover_flag_values(&outs, 'I');
    assert_eq!(items(&set), vec!["inc"]);
}

#[test]
fn markers_are_separated() {
    let outs = outputs(&["-Lpath1 -lname -Iinc"]);
    assert_eq!(items(&discover_flag_values(&outs, 'L')), vec!["path1"]);
    assert_eq!(items(&discover_flag_values(&outs, 'l')), vec!["name"]);
    assert_eq!(items(&discover_flag_values(&outs, 'I')), vec!["inc"]);
}
