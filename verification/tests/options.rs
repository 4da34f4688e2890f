use protoc_gen_prost::args::{config_from_opts, lookup_config_key, split_option, Config, ConfigKey};
use protoc_gen_prost::generator::{lookup_generator_key, GeneratorKey};
use protoc_gen_prost::Generator;

fn opts(items: &[&str]) -> Vec<String> {
    items.iter().map(|s| s.to_string()).collect()
}

fn pair(a: &str, b: &str) -> (String, String) {
    (a.to_string(), b.to_string())
}

fn parts(opt: &str) -> Vec<String> {
    split_option(opt).iter().map(|p| p.iter().collect::<String>()).collect()
}

#[test]
fn option_is_cut_at_first_two_equal_signs() {
    assert_eq!(parts("key"), opts(&["key"]));
    assert_eq!(parts(""), opts(&[""]));
    assert_eq!(parts("key=value"), opts(&["key", "value"]));
    assert_eq!(parts("key="), opts(&["key", ""]));
    assert_eq!(parts("=value"), opts(&["", "value"]));
    assert_eq!(parts("k=s=v"), opts(&["k", "s", "v"]));
    assert_eq!(parts("k=s=v=w=x"), opts(&["k", "s", "v=w=x"]));
    assert_eq!(parts("k=="), opts(&["k", "", ""]));
}

#[test]
fn table_of_config_options() {
    let key = |opt: &str| lookup_config_key(&split_option(opt));
    assert_eq!(key(""), Some(ConfigKey::Nothing));
    assert_eq!(key("btree_map=.a"), Some(ConfigKey::BtreeMap));
    assert_eq!(key("bytes=.a"), Some(ConfigKey::Bytes));
    assert_eq!(key("compile_well_known_types"), Some(ConfigKey::CompileWellKnownTypes));
    assert_eq!(key("default_package_filename=x"), Some(ConfigKey::DefaultPackageFilename));
    assert_eq!(key("disable_comments=.a"), Some(ConfigKey::DisableComments));
    assert_eq!(key("extern_path=.a=b"), Some(ConfigKey::ExternPath));
    assert_eq!(key("field_attribute=.a=b"), Some(ConfigKey::FieldAttribute));
    assert_eq!(key("file_descriptor_set=x"), Some(ConfigKey::FileDescriptorSetPath));
    assert_eq!(key("include_file=x"), Some(ConfigKey::IncludeFile));
    assert_eq!(key("retain_enum_prefix"), Some(ConfigKey::RetainEnumPrefix));
    assert_eq!(key("type_attribute=.a=b"), Some(ConfigKey::TypeAttribute));
    // a key with the wrong number of parts is not in the table
    assert_eq!(key("btree_map"), None);
    assert_eq!(key("btree_map=a=b"), None);
    assert_eq!(key("compile_well_known_types=yes"), None);
    assert_eq!(key("extern_path=.a"), None);
    assert_eq!(key("include_file"), None);
    assert_eq!(key("file_descriptor_set"), None);
    assert_eq!(key("foo=bar"), None);
    assert_eq!(key("="), None);
}

#[test]
fn table_of_generator_options() {
    let key = |opt: &str| lookup_generator_key(&split_option(opt));
    assert_eq!(key(""), Some(GeneratorKey::Nothing));
    assert_eq!(key("include_file"), Some(GeneratorKey::IncludeFile));
    assert_eq!(key("include_file=x"), Some(GeneratorKey::IncludeFileName));
    assert_eq!(key("gen_crate"), Some(GeneratorKey::GenCrate));
    assert_eq!(key("gen_crate=x"), Some(GeneratorKey::GenCrateTemplate));
    assert_eq!(key("file_descriptor_set"), Some(GeneratorKey::FileDescriptorSet));
    assert_eq!(key("file_descriptor_set=x"), Some(GeneratorKey::FileDescriptorSetName));
    assert_eq!(key("gen_crate=a=b"), None);
    assert_eq!(key("foo"), None);
}

#[test]
fn no_options_give_the_empty_config() {
    let (config, leftovers) = config_from_opts(Vec::new());
    assert!(leftovers.is_empty());
    assert!(config.btree_map.is_empty());
    assert!(config.bytes.is_empty());
    assert!(config.disable_comments.is_empty());
    assert!(!config.compile_well_known_types);
    assert!(!config.retain_enum_prefix);
    assert_eq!(config.default_package_filename, None);
    assert!(config.extern_paths.is_empty());
    assert!(config.field_attributes.is_empty());
    assert!(config.type_attributes.is_empty());
    assert_eq!(config.file_descriptor_set_path, None);
    assert_eq!(config.include_file, None);
}

#[test]
fn every_config_option_is_read() {
    let (config, leftovers) = config_from_opts(opts(&[
        "btree_map=.m",
        "bytes=.b",
        "compile_well_known_types",
        "default_package_filename=_",
        "disable_comments=.c",
        "extern_path=.google.protobuf=::pbjson_types",
        "field_attribute=.a.f=#[serde(default)]",
        "file_descriptor_set=fds.bin",
        "include_file=inc.rs",
        "retain_enum_prefix",
        "type_attribute=.a.T=#[derive(Eq)]",
    ]));
    assert!(leftovers.is_empty());
    assert_eq!(config.btree_map, opts(&[".m"]));
    assert_eq!(config.bytes, opts(&[".b"]));
    assert!(config.compile_well_known_types);
    assert_eq!(config.default_package_filename, Some("_".to_string()));
    assert_eq!(config.disable_comments, opts(&[".c"]));
    assert_eq!(config.extern_paths, vec![pair(".google.protobuf", "::pbjson_types")]);
    assert_eq!(config.field_attributes, vec![pair(".a.f", "#[serde(default)]")]);
    assert_eq!(config.file_descriptor_set_path, Some("fds.bin".to_string()));
    assert_eq!(config.include_file, Some("inc.rs".to_string()));
    assert!(config.retain_enum_prefix);
    assert_eq!(config.type_attributes, vec![pair(".a.T", "#[derive(Eq)]")]);
}

#[test]
fn repeats_are_kept_in_order() {
    let (config, leftovers) = config_from_opts(opts(&[
        "btree_map=.a",
        "bytes=.x",
        "btree_map=.b",
        "btree_map=.a",
        "type_attribute=.T=#[a]",
        "type_attribute=.T=#[b]",
        "extern_path=.p=x",
        "extern_path=.p=y",
    ]));
    assert!(leftovers.is_empty());
    assert_eq!(config.btree_map, opts(&[".a", ".b", ".a"]));
    assert_eq!(config.bytes, opts(&[".x"]));
    assert_eq!(config.type_attributes, vec![pair(".T", "#[a]"), pair(".T", "#[b]")]);
    assert_eq!(config.extern_paths, vec![pair(".p", "x"), pair(".p", "y")]);
}

#[test]
fn single_settings_keep_the_last_value() {
    let (config, _) = config_from_opts(opts(&[
        "default_package_filename=a",
        "default_package_filename=b",
        "include_file=x.rs",
        "include_file=y.rs",
    ]));
    assert_eq!(config.default_package_filename, Some("b".to_string()));
    assert_eq!(config.include_file, Some("y.rs".to_string()));
}

#[test]
fn value_may_hold_equal_signs() {
    let (config, leftovers) =
        config_from_opts(opts(&["type_attribute=.T=#[serde(rename = \"x\")]"]));
    assert!(leftovers.is_empty());
    assert_eq!(config.type_attributes, vec![pair(".T", "#[serde(rename = \"x\")]")]);
}

#[test]
fn empty_options_are_ignored() {
    let (_, leftovers) = config_from_opts(opts(&["", "", "bytes=.a", ""]));
    assert!(leftovers.is_empty());
    let (_, leftovers) = Generator::new_from_opts(opts(&["", "gen_crate", ""]));
    assert!(leftovers.is_empty());
}

#[test]
fn unrecognised_options_are_left_over_in_order() {
    let (config, leftovers) = config_from_opts(opts(&[
        "zeta",
        "bytes=.a",
        "alpha=1",
        "",
        "zeta",
        "btree_map",
        "gen_crate",
        "extern_path=only",
    ]));
    assert_eq!(config.bytes, opts(&[".a"]));
    assert_eq!(leftovers, opts(&["zeta", "alpha=1", "zeta", "btree_map", "gen_crate", "extern_path=only"]));
}

#[test]
fn apply_reads_one_option() {
    let mut config = Config::new();
    assert!(config.apply("bytes=.a"));
    assert!(config.apply(""));
    assert!(!config.apply("gen_crate"));
    assert!(!config.apply("bytes"));
    assert_eq!(config.bytes, opts(&[".a"]));
}

#[test]
fn generator_leftovers_are_what_nothing_recognises() {
    let (_, leftovers) = Generator::new_from_opts(opts(&[
        "foo=bar",
        "gen_crate",
        "bytes=.a",
        "baz",
        "include_file",
        "foo=bar",
        "file_descriptor_set=a=b",
    ]));
    assert_eq!(leftovers, opts(&["foo=bar", "baz", "foo=bar", "file_descriptor_set=a=b"]));
}

#[test]
fn no_include_file_by_default() {
    let (generator, leftovers) = Generator::new_from_opts(opts(&["bytes=.a"]));
    assert!(leftovers.is_empty());
    assert_eq!(generator.include_file, None);
    assert_eq!(generator.manifest_tpl, None);
    assert_eq!(generator.file_descriptor_set, None);
    assert_eq!(generator.config.bytes, opts(&[".a"]));
}

#[test]
fn include_file_flag_gives_mod_rs() {
    let (generator, _) = Generator::new_from_opts(opts(&["include_file"]));
    assert_eq!(generator.include_file, Some("mod.rs".to_string()));
    assert_eq!(generator.manifest_tpl, None);
}

#[test]
fn gen_crate_gives_lib_rs_and_default_template() {
    let (generator, _) = Generator::new_from_opts(opts(&["gen_crate"]));
    assert_eq!(generator.manifest_tpl, Some("Cargo.toml.tpl".to_string()));
    assert_eq!(generator.include_file, Some("lib.rs".to_string()));
    let (generator, _) = Generator::new_from_opts(opts(&["include_file", "gen_crate"]));
    assert_eq!(generator.include_file, Some("lib.rs".to_string()));
}

#[test]
fn gen_crate_with_template_path() {
    let (generator, _) = Generator::new_from_opts(opts(&["gen_crate=tpl/Cargo.toml"]));
    assert_eq!(generator.manifest_tpl, Some("tpl/Cargo.toml".to_string()));
    assert_eq!(generator.include_file, Some("lib.rs".to_string()));
    let (generator, _) = Generator::new_from_opts(opts(&["gen_crate=a", "gen_crate"]));
    assert_eq!(generator.manifest_tpl, Some("Cargo.toml.tpl".to_string()));
}

#[test]
fn file_descriptor_set_flag_gives_default_name() {
    let (generator, _) = Generator::new_from_opts(opts(&["file_descriptor_set"]));
    assert_eq!(generator.file_descriptor_set, Some("file_descriptor_set.rs".to_string()));
    assert_eq!(generator.config.file_descriptor_set_path, None);
}

#[test]
fn include_file_name_is_taken_as_given() {
    let (generator, leftovers) = Generator::new_from_opts(opts(&["include_file=foo.rs"]));
    assert!(leftovers.is_empty());
    assert_eq!(generator.include_file, Some("foo.rs".to_string()));
    assert_eq!(generator.config.include_file, Some("foo.rs".to_string()));
    assert_eq!(generator.manifest_tpl, None);
}

#[test]
fn include_file_name_stands_against_both_defaults() {
    let (generator, _) = Generator::new_from_opts(opts(&["gen_crate", "include_file=foo.rs"]));
    assert_eq!(generator.include_file, Some("foo.rs".to_string()));
    let (generator, _) = Generator::new_from_opts(opts(&["include_file=foo.rs", "include_file", "gen_crate"]));
    assert_eq!(generator.include_file, Some("foo.rs".to_string()));
    let (generator, _) = Generator::new_from_opts(opts(&["include_file=a.rs", "include_file=b.rs"]));
    assert_eq!(generator.include_file, Some("b.rs".to_string()));
}

#[test]
fn file_descriptor_set_name_sets_path_and_file() {
    let (generator, leftovers) = Generator::new_from_opts(opts(&["file_descriptor_set=fds.rs"]));
    assert!(leftovers.is_empty());
    assert_eq!(generator.file_descriptor_set, Some("fds.rs".to_string()));
    assert_eq!(generator.config.file_descriptor_set_path, Some("fds.rs".to_string()));
    let (generator, _) = Generator::new_from_opts(opts(&["file_descriptor_set=a.rs", "file_descriptor_set"]));
    assert_eq!(generator.file_descriptor_set, Some("file_descriptor_set.rs".to_string()));
    assert_eq!(generator.config.file_descriptor_set_path, Some("a.rs".to_string()));
}

#[test]
fn default_generator_has_nothing_set() {
    let generator = Generator::default();
    assert_eq!(generator.include_file, None);
    assert_eq!(generator.manifest_tpl, None);
    assert_eq!(generator.file_descriptor_set, None);
    assert!(generator.config.bytes.is_empty());
    assert!(!generator.config.compile_well_known_types);
}
