use protoc_gen_prost::deps::{build_deps, DependencyGraph, FileDescriptor};
use protoc_gen_prost::manifest::{feature_decl, gen_manifest, render_features, replace_all};

fn file(name: &str, package: &str, dependency: &[&str]) -> FileDescriptor {
    FileDescriptor {
        name: name.to_string(),
        package: package.to_string(),
        dependency: dependency.iter().map(|s| s.to_string()).collect(),
    }
}

fn entry(package: &str, deps: &[&str]) -> (String, Vec<String>) {
    (package.to_string(), deps.iter().map(|s| s.to_string()).collect())
}

#[test]
fn no_files_no_packages() {
    assert!(build_deps(&[]).entries.is_empty());
    assert!(DependencyGraph::new().entries.is_empty());
}

#[test]
fn dependency_by_file_becomes_dependency_by_package() {
    let graph = build_deps(&[file("a.proto", "pkg.a", &[]), file("b.proto", "pkg.b", &["a.proto"])]);
    assert_eq!(graph.entries, vec![entry("pkg.a", &[]), entry("pkg.b", &["pkg.a"])]);
}

#[test]
fn files_of_one_package_add_up() {
    let graph = build_deps(&[
        file("one.proto", "p", &["q.proto"]),
        file("r.proto", "r", &[]),
        file("two.proto", "p", &["r.proto"]),
        file("q.proto", "q", &[]),
    ]);
    assert_eq!(graph.entries, vec![entry("p", &["q", "r"]), entry("q", &[]), entry("r", &[])]);
}

#[test]
fn no_package_depends_on_itself() {
    let graph = build_deps(&[
        file("a1.proto", "a", &["a2.proto", "a1.proto", "b.proto"]),
        file("a2.proto", "a", &["a1.proto"]),
        file("b.proto", "b", &["b.proto"]),
    ]);
    assert_eq!(graph.entries, vec![entry("a", &["b"]), entry("b", &[])]);
}

#[test]
fn unknown_files_are_passed_over() {
    let graph = build_deps(&[file("a.proto", "a", &["google/protobuf/any.proto", "b.proto"]), file("b.proto", "b", &[])]);
    assert_eq!(graph.entries, vec![entry("a", &["b"]), entry("b", &[])]);
}

#[test]
fn packages_and_dependencies_are_in_order_and_without_repeats() {
    let graph = build_deps(&[
        file("z.proto", "z", &["m.proto", "b.proto", "m.proto", "a.proto", "m2.proto"]),
        file("m.proto", "m", &[]),
        file("m2.proto", "m", &[]),
        file("b.proto", "b", &[]),
        file("a.proto", "a", &[]),
    ]);
    assert_eq!(
        graph.entries,
        vec![entry("a", &[]), entry("b", &[]), entry("m", &[]), entry("z", &["a", "b", "m"])]
    );
}

#[test]
fn last_file_of_a_name_owns_it() {
    let graph =
        build_deps(&[file("x.proto", "first", &[]), file("x.proto", "second", &[]), file("u.proto", "u", &["x.proto"])]);
    assert_eq!(graph.entries, vec![entry("first", &[]), entry("second", &[]), entry("u", &["second"])]);
}

#[test]
fn file_without_package() {
    let graph = build_deps(&[file("a.proto", "", &["b.proto"]), file("b.proto", "b", &["a.proto"])]);
    assert_eq!(graph.entries, vec![entry("", &["b"]), entry("b", &[""])]);
}

#[test]
fn feature_declaration() {
    assert_eq!(feature_decl("pkg.a", &vec![]), "\"pkg.a\" = []");
    assert_eq!(feature_decl("p", &vec!["q".to_string()]), "\"p\" = [\"q\"]");
    assert_eq!(feature_decl("p", &vec!["q".to_string(), "r.s".to_string()]), "\"p\" = [\"q\", \"r.s\"]");
}

#[test]
fn features_one_on_each_line() {
    let graph = DependencyGraph { entries: vec![entry("a", &[]), entry("b", &["a"])] };
    assert_eq!(render_features(&graph), "\"a\" = []\n\"b\" = [\"a\"]");
    assert_eq!(render_features(&DependencyGraph::new()), "");
}

#[test]
fn replace_every_occurrence() {
    assert_eq!(replace_all("a{{x}}b{{x}}", "{{x}}", "1"), "a1b1");
    assert_eq!(replace_all("aaa", "aa", "b"), "ba");
    assert_eq!(replace_all("abc", "abcd", "x"), "abc");
    assert_eq!(replace_all("abc", "", "x"), "abc");
    assert_eq!(replace_all("", "a", "x"), "");
    assert_eq!(replace_all("{{ features }}", "{{ features }}", ""), "");
    assert_eq!(replace_all("x{{ features }y", "{{ features }}", "z"), "x{{ features }y");
}

#[test]
fn manifest_from_template() {
    let protos = [file("a.proto", "pkg.a", &[]), file("b.proto", "pkg.b", &["a.proto"])];
    let tpl = "[package]\nname = \"x\"\n\n[features]\n{{ features }}\n";
    assert_eq!(
        gen_manifest(tpl, &protos, false),
        "[package]\nname = \"x\"\n\n[features]\n\"pkg.a\" = []\n\"pkg.b\" = [\"pkg.a\"]\n"
    );
}

#[test]
fn manifest_with_descriptor_set_feature() {
    let protos = [file("a.proto", "pkg.a", &[]), file("b.proto", "a", &["a.proto"])];
    assert_eq!(
        gen_manifest("{{ features }}", &protos, true),
        "\"a\" = [\"pkg.a\"]\n\"file_descriptor_set\" = []\n\"pkg.a\" = []"
    );
    assert_eq!(gen_manifest("{{ features }}", &[], true), "\"file_descriptor_set\" = []");
}

#[test]
fn descriptor_set_feature_takes_the_place_of_a_package_of_that_name() {
    let protos = [file("a.proto", "file_descriptor_set", &["b.proto"]), file("b.proto", "b", &[])];
    assert_eq!(gen_manifest("{{ features }}", &protos, false), "\"b\" = []\n\"file_descriptor_set\" = [\"b\"]");
    assert_eq!(gen_manifest("{{ features }}", &protos, true), "\"b\" = []\n\"file_descriptor_set\" = []");
}

#[test]
fn template_without_placeholder_stays_as_it_is() {
    let protos = [file("a.proto", "pkg.a", &[])];
    assert_eq!(gen_manifest("[package]\nname = \"x\"\n", &protos, true), "[package]\nname = \"x\"\n");
    assert_eq!(gen_manifest("", &protos, false), "");
}

#[test]
fn placeholder_may_stand_several_times() {
    let protos = [file("a.proto", "a", &[])];
    assert_eq!(gen_manifest("{{ features }}|{{ features }}", &protos, false), "\"a\" = []|\"a\" = []");
}
