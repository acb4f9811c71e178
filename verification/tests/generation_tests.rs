use spdk_rs::discovery::discover_flag_values;
use spdk_rs::generation::{
    observe_macro, opaque_types, spdk_libraries, translator_config, translator_options,
    MacroBehavior,
};
use spdk_rs::strset::StrSet;

fn items(s: &StrSet) -> Vec<String> {
    let mut v = Vec::new();
    let mut i = 0;
    while i < s.len() {
        v.push(s.get(i).clone());
        i += 1;
    }
    v
}

#[test]
fn queried_libraries() {
    assert_eq!(
        spdk_libraries(),
        vec![
            "spdk_nvme",
            "spdk_sock",
            "spdk_sock_posix",
            "spdk_thread",
            "spdk_util",
            "spdk_vmd",
            "spdk_env_dpdk",
            "spdk_log",
        ]
    );
}

#[test]
fn opaque_type_list_is_complete() {
    let names = opaque_types();
    let expected = vec![
        "spdk_nvme_tcp_cmd",
        "spdk_nvme_tcp_rsp",
        "spdk_nvmf_fabric_prop_get_rsp",
        "spdk_nvmf_fabric_connect_rsp",
        "spdk_nvmf_fabric_connect_cmd",
        "spdk_nvmf_fabric_auth_send_cmd",
        "spdk_nvmf_fabric_auth_recv_cmd",
        "spdk_nvme_health_information_page",
        "spdk_nvme_ctrlr_data",
        "spdk_nvme_sgl_descriptor",
    ];
    assert_eq!(names, expected);
    // Every name of the list is marked in the configuration handed to the
    // translator.
    let config = translator_config(&StrSet::new());
    for name in &expected {
        assert!(config.opaque_types.iter().any(|n| n == name));
    }
}

#[test]
fn translator_switches() {
    let o = translator_options();
    assert!(o.format_output);
    assert!(!o.trust_mangling);
    assert!(!o.layout_tests);
    assert!(o.derive_default);
    assert!(o.derive_debug);
    assert!(!o.prepend_enum_name);
    assert!(o.generate_inline_functions);
}

#[test]
fn config_include_arguments() {
    let outs = vec!["-Ifoo -Ibar".to_string()];
    let includes = discover_flag_values(&outs, 'I');
    let config = translator_config(&includes);
    assert_eq!(config.include_args, vec!["-Ibar", "-Ifoo"]);
    assert_eq!(config.header, "wrapper.h");
    assert_eq!(config.output_filename, "bindings.rs");
    assert_eq!(config.options, translator_options());
}

#[test]
fn config_is_idempotent() {
    let outs = vec!["-Ifoo -Ibar".to_string(), "-Ibar".to_string()];
    let a = translator_config(&discover_flag_values(&outs, 'I'));
    let b = translator_config(&discover_flag_values(&outs, 'I'));
    assert_eq!(a.include_args, b.include_args);
    assert_eq!(a.opaque_types, b.opaque_types);
    assert_eq!(a.header, b.header);
    assert_eq!(a.output_filename, b.output_filename);
    assert_eq!(a.options, b.options);
}

#[test]
fn every_macro_is_recorded() {
    let mut seen = StrSet::new();
    assert_eq!(observe_macro(&mut seen, "SPDK_COUNTOF"), MacroBehavior::UseDefault);
    assert_eq!(observe_macro(&mut seen, "IPPORT_RESERVED"), MacroBehavior::Ignore);
    assert_eq!(observe_macro(&mut seen, "UINT8_MAX"), MacroBehavior::UseDefault);
    assert_eq!(items(&seen), vec!["IPPORT_RESERVED", "SPDK_COUNTOF", "UINT8_MAX"]);
}

#[test]
fn only_the_reserved_macro_is_skipped() {
    let mut seen = StrSet::new();
    assert_eq!(observe_macro(&mut seen, "IPPORT_RESERVED"), MacroBehavior::Ignore);
    assert_eq!(observe_macro(&mut seen, "IPPORT_RESERVE"), MacroBehavior::UseDefault);
    assert_eq!(observe_macro(&mut seen, "IPPORT_RESERVEDX"), MacroBehavior::UseDefault);
    assert_eq!(observe_macro(&mut seen, ""), MacroBehavior::UseDefault);
}
