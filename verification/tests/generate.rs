use protoc_gen_prost::deps::FileDescriptor;
use protoc_gen_prost::generator::{
    descriptor_include_stmt, descriptor_source, hex_of, FileKind, GenerateError, GeneratedFile,
};
use protoc_gen_prost::modules::{order_modules, path_before};
use protoc_gen_prost::plugin::{generator_from_parameter, respond, unknown_opts_message};
use protoc_gen_prost::Generator;

fn opts(items: &[&str]) -> Vec<String> {
    items.iter().map(|s| s.to_string()).collect()
}

fn generator(items: &[&str]) -> Generator {
    let (generator, leftovers) = Generator::new_from_opts(opts(items));
    assert!(leftovers.is_empty());
    generator
}

fn file(name: &str, package: &str, dependency: &[&str]) -> FileDescriptor {
    FileDescriptor {
        name: name.to_string(),
        package: package.to_string(),
        dependency: dependency.iter().map(|s| s.to_string()).collect(),
    }
}

fn module(path: &[&str], content: &str) -> (Vec<String>, String) {
    (opts(path), content.to_string())
}

fn listing(files: &[GeneratedFile]) -> Vec<(String, FileKind)> {
    files.iter().map(|f| (f.name.clone(), f.kind)).collect()
}

fn protos() -> Vec<FileDescriptor> {
    vec![file("a.proto", "pkg.a", &[]), file("b.proto", "pkg.b", &["a.proto"])]
}

fn modules() -> Vec<(Vec<String>, String)> {
    vec![module(&["pkg", "b"], "pub struct B;\n"), module(&["pkg", "a"], "pub struct A;\n")]
}

#[test]
fn byte_in_base_sixteen() {
    assert_eq!(hex_of(0), "0x00");
    assert_eq!(hex_of(10), "0x0a");
    assert_eq!(hex_of(0x7f), "0x7f");
    assert_eq!(hex_of(255), "0xff");
    for b in 0..=255u8 {
        assert_eq!(hex_of(b), format!("0x{:02x}", b));
    }
}

#[test]
fn descriptor_set_as_a_constant() {
    assert_eq!(descriptor_source(&[]), "pub const FILE_DESCRIPTOR_SET: &[u8] = &[];");
    assert_eq!(descriptor_source(&[0x0a]), "pub const FILE_DESCRIPTOR_SET: &[u8] = &[0x0a];");
    assert_eq!(
        descriptor_source(&[0x0a, 0x00, 0xff]),
        "pub const FILE_DESCRIPTOR_SET: &[u8] = &[0x0a, 0x00, 0xff];"
    );
}

#[test]
fn descriptor_set_inclusion() {
    assert_eq!(descriptor_include_stmt("\"f.rs\"", false), "include!(\"f.rs\");\n");
    assert_eq!(
        descriptor_include_stmt("\"f.rs\"", true),
        "#[cfg(feature = \"file_descriptor_set\")]\ninclude!(concat!(env!(\"CARGO_MANIFEST_DIR\"), \"/gen/\", \"f.rs\"));\n"
    );
}

#[test]
fn modules_only() {
    let files = generator(&[]).generate(&protos(), modules(), None, &[1, 2]).unwrap();
    assert_eq!(
        listing(&files),
        vec![("pkg.a.rs".to_string(), FileKind::Module), ("pkg.b.rs".to_string(), FileKind::Module)]
    );
    assert_eq!(files[0].content, "pub struct A;\n");
    assert_eq!(files[1].content, "pub struct B;\n");
    assert!(files[0].is_source());
}

#[test]
fn nothing_generated() {
    let files = generator(&[]).generate(&[], Vec::new(), None, &[]).unwrap();
    assert!(files.is_empty());
    let files = generator(&["include_file"]).generate(&[], Vec::new(), None, &[]).unwrap();
    assert_eq!(listing(&files), vec![("mod.rs".to_string(), FileKind::Include)]);
    assert_eq!(files[0].content, "");
}

#[test]
fn module_without_path() {
    let files = generator(&[]).generate(&[], vec![module(&[], "x")], None, &[]).unwrap();
    assert_eq!(listing(&files), vec![(".rs".to_string(), FileKind::Module)]);
}

#[test]
fn with_include_file() {
    let files = generator(&["include_file"]).generate(&protos(), modules(), None, &[]).unwrap();
    assert_eq!(
        listing(&files),
        vec![
            ("pkg.a.rs".to_string(), FileKind::Module),
            ("pkg.b.rs".to_string(), FileKind::Module),
            ("mod.rs".to_string(), FileKind::Include),
        ]
    );
    assert_eq!(
        files[2].content,
        "pub mod pkg {\n\
         pub mod a {\ninclude!(concat!(\"pkg.a\", \".rs\"));\n}\n\
         pub mod b {\ninclude!(concat!(\"pkg.b\", \".rs\"));\n}\n\
         }\n"
    );
}

#[test]
fn with_descriptor_set() {
    let files =
        generator(&["include_file", "file_descriptor_set"]).generate(&protos(), modules(), None, &[0x0a, 0x10]).unwrap();
    assert_eq!(
        listing(&files),
        vec![
            ("pkg.a.rs".to_string(), FileKind::Module),
            ("pkg.b.rs".to_string(), FileKind::Module),
            ("mod.rs".to_string(), FileKind::Include),
            ("file_descriptor_set.rs".to_string(), FileKind::DescriptorSet),
        ]
    );
    assert!(files[2].content.starts_with("include!(\"file_descriptor_set.rs\");\npub mod pkg {\n"));
    assert_eq!(files[3].content, "pub const FILE_DESCRIPTOR_SET: &[u8] = &[0x0a, 0x10];");
    assert!(files[3].is_source());
}

#[test]
fn generated_crate() {
    let tpl = "[features]\n{{ features }}\n";
    let files = generator(&["gen_crate", "file_descriptor_set"])
        .generate(&protos(), modules(), Some(tpl), &[0xff])
        .unwrap();
    assert_eq!(
        listing(&files),
        vec![
            ("gen/pkg.a.rs".to_string(), FileKind::Module),
            ("gen/pkg.b.rs".to_string(), FileKind::Module),
            ("src/lib.rs".to_string(), FileKind::Include),
            ("Cargo.toml".to_string(), FileKind::Manifest),
            ("gen/file_descriptor_set.rs".to_string(), FileKind::DescriptorSet),
        ]
    );
    assert_eq!(
        files[2].content,
        "#[cfg(feature = \"file_descriptor_set\")]\n\
         include!(concat!(env!(\"CARGO_MANIFEST_DIR\"), \"/gen/\", \"file_descriptor_set.rs\"));\n\
         pub mod pkg {\n\
         pub mod a {\n\
         #[cfg(feature = \"pkg.a\")]\n\
         include!(concat!(env!(\"CARGO_MANIFEST_DIR\"), \"/gen/\", \"pkg.a\", \".rs\"));\n\
         }\n\
         pub mod b {\n\
         #[cfg(feature = \"pkg.b\")]\n\
         include!(concat!(env!(\"CARGO_MANIFEST_DIR\"), \"/gen/\", \"pkg.b\", \".rs\"));\n\
         }\n\
         }\n"
    );
    assert_eq!(
        files[3].content,
        "[features]\n\"file_descriptor_set\" = []\n\"pkg.a\" = []\n\"pkg.b\" = [\"pkg.a\"]\n"
    );
    assert!(!files[3].is_source());
    assert_eq!(files[4].content, "pub const FILE_DESCRIPTOR_SET: &[u8] = &[0xff];");
}

#[test]
fn generated_crate_without_descriptor_set() {
    let files = generator(&["gen_crate=my.tpl"]).generate(&protos(), modules(), Some("{{ features }}"), &[]).unwrap();
    assert_eq!(
        listing(&files),
        vec![
            ("gen/pkg.a.rs".to_string(), FileKind::Module),
            ("gen/pkg.b.rs".to_string(), FileKind::Module),
            ("src/lib.rs".to_string(), FileKind::Include),
            ("Cargo.toml".to_string(), FileKind::Manifest),
        ]
    );
    assert_eq!(files[3].content, "\"pkg.a\" = []\n\"pkg.b\" = [\"pkg.a\"]");
}

#[test]
fn generated_crate_needs_its_template() {
    let outcome = generator(&["gen_crate"]).generate(&protos(), modules(), None, &[]);
    assert!(matches!(outcome, Err(GenerateError::TemplateMissing)));
    assert_eq!(GenerateError::TemplateMissing.message(), "Cargo.toml gen failed: the template was not read");
}

#[test]
fn template_is_not_read_without_gen_crate() {
    let files = generator(&[]).generate(&protos(), modules(), Some("{{ features }}"), &[]).unwrap();
    assert_eq!(files.len(), 2);
}

#[test]
fn include_file_of_generator() {
    let text = generator(&["file_descriptor_set"]).gen_include_file(&modules());
    assert!(text.starts_with("include!(\"file_descriptor_set.rs\");\n"));
    assert!(syn::parse_file(&text).is_ok());
    assert!(generator(&["gen_crate"]).is_crate());
    assert!(!generator(&["include_file"]).is_crate());
}

#[test]
fn unknown_option_alone_is_an_error() {
    let outcome = generator_from_parameter("foo=bar");
    let message = match outcome {
        Ok(_) => panic!("the option was taken"),
        Err(message) => message,
    };
    assert!(message.contains("foo=bar"));
    assert_eq!(message, "Unknown opts:\n - foo=bar");
    let response = respond(Err(message));
    assert!(response.file.is_empty());
    assert!(response.error.unwrap().contains("foo=bar"));
}

#[test]
fn every_unknown_option_is_listed() {
    assert_eq!(unknown_opts_message(&opts(&["a", "b=c"])), "Unknown opts:\n - a\n - b=c");
    match generator_from_parameter("gen_crate,x=1,bytes=.a,y\\,z") {
        Ok(_) => panic!("unknown options were taken"),
        Err(message) => assert_eq!(message, "Unknown opts:\n - x=1\n - y,z"),
    }
}

#[test]
fn parameter_of_known_options() {
    let generator = match generator_from_parameter("gen_crate=t.tpl,type_attribute=.T=#[derive(A\\, B)],,bytes=.") {
        Ok(generator) => generator,
        Err(message) => panic!("{}", message),
    };
    assert_eq!(generator.manifest_tpl, Some("t.tpl".to_string()));
    assert_eq!(generator.include_file, Some("lib.rs".to_string()));
    assert_eq!(generator.config.type_attributes, vec![(".T".to_string(), "#[derive(A, B)]".to_string())]);
    assert_eq!(generator.config.bytes, opts(&["."]));
    assert!(generator_from_parameter("").is_ok());
}

#[test]
fn response_of_a_run_that_went_through() {
    let files = generator(&[]).generate(&protos(), modules(), None, &[]).unwrap();
    let response = respond(Ok(files));
    assert_eq!(response.file.len(), 2);
    assert_eq!(response.error, None);
}

#[test]
fn paths_are_compared_segment_by_segment() {
    let before = |a: &[&str], b: &[&str]| path_before(&opts(a), &opts(b));
    assert!(before(&[], &["a"]));
    assert!(!before(&[], &[]));
    assert!(!before(&["a"], &[]));
    assert!(before(&["a"], &["a", "b"]));
    assert!(!before(&["a", "b"], &["a"]));
    assert!(before(&["a", "z"], &["b"]));
    assert!(before(&["a", "b"], &["a", "c"]));
    assert!(!before(&["a", "b"], &["a", "b"]));
    // a path is not its dotted name: `a.b` as one segment comes after `a`, `b`
    assert!(before(&["a", "b"], &["a.b"]));
    assert!(before(&["a"], &["a_b"]));
    assert!(before(&["a", "c"], &["a_b"]));
}

#[test]
fn modules_are_put_in_order_of_their_paths() {
    let given = vec![
        module(&["pkg", "b"], "1"),
        module(&["z"], "2"),
        module(&["pkg"], "3"),
        module(&[], "4"),
        module(&["pkg", "a", "x"], "5"),
        module(&["pkg", "a"], "6"),
    ];
    let ordered = order_modules(given);
    assert_eq!(
        ordered,
        vec![
            module(&[], "4"),
            module(&["pkg"], "3"),
            module(&["pkg", "a"], "6"),
            module(&["pkg", "a", "x"], "5"),
            module(&["pkg", "b"], "1"),
            module(&["z"], "2"),
        ]
    );
    assert!(order_modules(Vec::new()).is_empty());
}

#[test]
fn modules_of_one_path_keep_their_order() {
    let given = vec![module(&["b"], "1"), module(&["a"], "2"), module(&["b"], "3"), module(&["a"], "4")];
    assert_eq!(
        order_modules(given),
        vec![module(&["a"], "2"), module(&["a"], "4"), module(&["b"], "1"), module(&["b"], "3")]
    );
}

#[test]
fn output_does_not_depend_on_the_order_of_the_modules() {
    let mut backward = modules();
    backward.reverse();
    let one = generator(&["gen_crate"]).generate(&protos(), modules(), Some("{{ features }}"), &[]).unwrap();
    let other = generator(&["gen_crate"]).generate(&protos(), backward, Some("{{ features }}"), &[]).unwrap();
    assert_eq!(listing(&one), listing(&other));
    for (a, b) in one.iter().zip(other.iter()) {
        assert_eq!(a.content, b.content);
    }
}
