use vstd::prelude::*;

use crate::discovery::union_flag_values;
use crate::order::str_eq;
use crate::strset::{lemma_sorted_set_unique, strict_sorted, StrSet};

verus! {

/// Appends one name to a list of strings.
fn push_str(v: &mut Vec<String>, s: &str)
    ensures
        final(v).deep_view() == old(v).deep_view().push(s@),
{
    let owned = s.to_owned();
    let ghost sv = owned@;
    let ghost prev = v@;
    let ghost prev_deep = v.deep_view();
    v.push(owned);
    proof {
        assert(v.deep_view() =~= prev_deep.push(sv)) by {
            assert(v@ == prev.push(v@[prev.len() as int]));
            assert forall|j: int| 0 <= j < v.deep_view().len() implies v.deep_view()[j]
                == prev_deep.push(sv)[j] by {
                if j < prev.len() {
                    assert(v@[j] == prev[j]);
                } else {
                    assert(v@[j]@ == sv);
                }
            }
        }
    }
}

/// The native libraries whose flags discovery queries, in query order: one
/// package-config query pair (cflags, libs) is made per name.
pub open spec fn spdk_library_names() -> Seq<Seq<char>> {
    seq![
        "spdk_nvme"@,
        "spdk_sock"@,
        "spdk_sock_posix"@,
        "spdk_thread"@,
        "spdk_util"@,
        "spdk_vmd"@,
        "spdk_env_dpdk"@,
        "spdk_log"@,
    ]
}

/// The queried library names as strings.
pub fn spdk_libraries() -> (v: Vec<String>)
    ensures
        v.deep_view() == spdk_library_names(),
{
    let mut v: Vec<String> = Vec::new();
    proof {
        assert(v.deep_view() =~= Seq::<Seq<char>>::empty());
    }
    push_str(&mut v, "spdk_nvme");
    push_str(&mut v, "spdk_sock");
    push_str(&mut v, "spdk_sock_posix");
    push_str(&mut v, "spdk_thread");
    push_str(&mut v, "spdk_util");
    push_str(&mut v, "spdk_vmd");
    push_str(&mut v, "spdk_env_dpdk");
    push_str(&mut v, "spdk_log");
    proof {
        assert(v.deep_view() =~= spdk_library_names());
    }
    v
}

/// The native structures whose true in-memory alignment the translator
/// cannot represent: each is marked layout-opaque, so the generated
/// bindings hold an opaque placeholder for it, never a laid-out structure.
pub open spec fn opaque_type_names() -> Seq<Seq<char>> {
    seq![
        "spdk_nvme_tcp_cmd"@,
        "spdk_nvme_tcp_rsp"@,
        "spdk_nvmf_fabric_prop_get_rsp"@,
        "spdk_nvmf_fabric_connect_rsp"@,
        "spdk_nvmf_fabric_connect_cmd"@,
        "spdk_nvmf_fabric_auth_send_cmd"@,
        "spdk_nvmf_fabric_auth_recv_cmd"@,
        "spdk_nvme_health_information_page"@,
        "spdk_nvme_ctrlr_data"@,
        "spdk_nvme_sgl_descriptor"@,
    ]
}

/// The layout-opaque structure names as strings.
pub fn opaque_types() -> (v: Vec<String>)
    ensures
        v.deep_view() == opaque_type_names(),
{
    let mut v: Vec<String> = Vec::new();
    proof {
        assert(v.deep_view() =~= Seq::<Seq<char>>::empty());
    }
    push_str(&mut v, "spdk_nvme_tcp_cmd");
    push_str(&mut v, "spdk_nvme_tcp_rsp");
    push_str(&mut v, "spdk_nvmf_fabric_prop_get_rsp");
    push_str(&mut v, "spdk_nvmf_fabric_connect_rsp");
    push_str(&mut v, "spdk_nvmf_fabric_connect_cmd");
    push_str(&mut v, "spdk_nvmf_fabric_auth_send_cmd");
    push_str(&mut v, "spdk_nvmf_fabric_auth_recv_cmd");
    push_str(&mut v, "spdk_nvme_health_information_page");
    push_str(&mut v, "spdk_nvme_ctrlr_data");
    push_str(&mut v, "spdk_nvme_sgl_descriptor");
    proof {
        assert(v.deep_view() =~= opaque_type_names());
    }
    v
}

/// The fixed translator switches used for every generation run.
#[derive(PartialEq, Eq, Structural, Clone, Copy, Debug)]
pub struct TranslatorOptions {
    /// Format the generated bindings.
    pub format_output: bool,
    /// Trust the C compiler's symbol mangling.
    pub trust_mangling: bool,
    /// Emit layout assertions for generated types.
    pub layout_tests: bool,
    /// Derive default values for generated types.
    pub derive_default: bool,
    /// Derive debug formatting for generated types.
    pub derive_debug: bool,
    /// Prefix enum constant names with their enum's name.
    pub prepend_enum_name: bool,
    /// Inline small header-defined functions into the bindings.
    pub generate_inline_functions: bool,
}

/// The switch values generation always uses: formatting, default values,
/// debug formatting and inlining on; mangling trust, layout assertions and
/// enum-name prefixing off.
pub open spec fn spec_translator_options() -> TranslatorOptions {
    TranslatorOptions {
        format_output: true,
        trust_mangling: false,
        layout_tests: false,
        derive_default: true,
        derive_debug: true,
        prepend_enum_name: false,
        generate_inline_functions: true,
    }
}

/// The options used for every generation run.
pub fn translator_options() -> (o: TranslatorOptions)
    ensures
        o == spec_translator_options(),
{
    TranslatorOptions {
        format_output: true,
        trust_mangling: false,
        layout_tests: false,
        derive_default: true,
        derive_debug: true,
        prepend_enum_name: false,
        generate_inline_functions: true,
    }
}

/// The include argument handed to the translator for one discovered path.
pub open spec fn spec_include_arg(p: Seq<char>) -> Seq<char> {
    "-I"@ + p
}

/// The include arguments for a list of paths, in order.
pub open spec fn spec_include_args(paths: Seq<Seq<char>>) -> Seq<Seq<char>> {
    paths.map_values(|p: Seq<char>| spec_include_arg(p))
}

/// Builds one include argument per discovered path, in the set's
/// deterministic order.
pub fn include_args(includes: &StrSet) -> (v: Vec<String>)
    ensures
        v.deep_view() == spec_include_args(includes.seq()),
{
    let ghost target = spec_include_args(includes.seq());
    let mut v: Vec<String> = Vec::new();
    let n = includes.len();
    let mut i: usize = 0;
    proof {
        assert(v.deep_view() =~= target.take(0));
    }
    while i < n
        invariant
            0 <= i <= n,
            n == includes.seq().len(),
            target == spec_include_args(includes.seq()),
            target.len() == includes.seq().len(),
            v.deep_view() == target.take(i as int),
        decreases n - i,
    {
        let mut arg = "-I".to_owned();
        arg.append(includes.get(i).as_str());
        let ghost arg_view = arg@;
        let ghost prev = v@;
        let ghost prev_deep = v.deep_view();
        proof {
            assert(arg_view == target[i as int]);
        }
        v.push(arg);
        proof {
            assert(v.deep_view() =~= prev_deep.push(arg_view)) by {
                assert(v@ == prev.push(v@[prev.len() as int]));
                assert forall|j: int| 0 <= j < v.deep_view().len() implies v.deep_view()[j]
                    == prev_deep.push(arg_view)[j] by {
                    if j < prev.len() {
                        assert(v@[j] == prev[j]);
                    } else {
                        assert(v@[j]@ == arg_view);
                    }
                }
            }
            assert(prev_deep.push(arg_view) =~= target.take(i + 1)) by {
                assert(prev_deep.len() == i);
                assert forall|j: int| 0 <= j < i + 1 implies prev_deep.push(arg_view)[j]
                    == target.take(i + 1)[j] by {
                    assert(target.take(i + 1)[j] == target[j]);
                    if j < i {
                        assert(prev_deep[j] == target.take(i as int)[j]);
                    }
                }
            }
        }
        i = i + 1;
    }
    proof {
        assert(target.take(n as int) =~= target);
    }
    v
}

/// Everything generation hands the translator: the computed include
/// arguments, the layout-opaque marks, the wrapper header to parse, the
/// name of the file the bindings are written to, and the fixed switches.
pub struct TranslatorConfig {
    /// One include argument per discovered include path.
    pub include_args: Vec<String>,
    /// The structure names marked layout-opaque.
    pub opaque_types: Vec<String>,
    /// The one wrapper header the translator parses.
    pub header: String,
    /// The file name the generated bindings are written to, inside the
    /// build output directory.
    pub output_filename: String,
    /// The fixed translator switches.
    pub options: TranslatorOptions,
}

/// Builds the full translator configuration from the discovered include
/// paths: every discovered path becomes an include argument and every name
/// of the opaque-type list is marked, while the header, the output file
/// name and the switches are fixed.
pub fn translator_config(includes: &StrSet) -> (c: TranslatorConfig)
    ensures
        c.include_args.deep_view() == spec_include_args(includes.seq()),
        c.opaque_types.deep_view() == opaque_type_names(),
        c.header@ == "wrapper.h"@,
        c.output_filename@ == "bindings.rs"@,
        c.options == spec_translator_options(),
{
    TranslatorConfig {
        include_args: include_args(includes),
        opaque_types: opaque_types(),
        header: "wrapper.h".to_owned(),
        output_filename: "bindings.rs".to_owned(),
        options: translator_options(),
    }
}

/// What the translator should do with one macro it encounters.
#[derive(PartialEq, Eq, Structural, Clone, Copy, Debug)]
pub enum MacroBehavior {
    /// Skip the macro: no binding is generated for it.
    Ignore,
    /// Translate the macro as usual.
    UseDefault,
}

/// The one macro excluded from translation, because its name collides with
/// a platform-reserved value.
pub open spec fn skipped_macro_name() -> Seq<char> {
    "IPPORT_RESERVED"@
}

/// Records one macro name the translator encountered and decides its
/// handling: every observed name joins the set, and exactly the one
/// platform-colliding name is skipped while every other macro receives
/// default treatment.
pub fn observe_macro(seen: &mut StrSet, name: &str) -> (b: MacroBehavior)
    requires
        old(seen).wf(),
    ensures
        final(seen).wf(),
        final(seen).set() == old(seen).set().insert(name@),
        (b == MacroBehavior::Ignore) <==> (name@ == skipped_macro_name()),
{
    seen.insert(name.to_owned());
    if str_eq(name, "IPPORT_RESERVED") {
        MacroBehavior::Ignore
    } else {
        MacroBehavior::UseDefault
    }
}

/// Re-running configuration on unchanged tool outputs yields identical
/// translator inputs: any two sorted include-path discovery results over
/// the same outputs give the same include arguments, and every other
/// configuration input is fixed.
pub proof fn lemma_config_deterministic(
    outs: Seq<Seq<char>>,
    inc1: Seq<Seq<char>>,
    inc2: Seq<Seq<char>>,
)
    requires
        strict_sorted(inc1),
        strict_sorted(inc2),
        inc1.to_set() == union_flag_values(outs, 'I'),
        inc2.to_set() == union_flag_values(outs, 'I'),
    ensures
        spec_include_args(inc1) == spec_include_args(inc2),
{
    lemma_sorted_set_unique(inc1, inc2);
}

} // verus!
