use protoc_gen_prost::tree::{include_stmt, module_decl, Mod};

fn path(items: &[&str]) -> Vec<String> {
    items.iter().map(|s| s.to_string()).collect()
}

#[test]
fn empty_tree_renders_nothing() {
    assert_eq!(Mod::default().render(false), "");
    assert_eq!(Mod::new().render(false), "");
    assert_eq!(Mod::new().render(true), "");
}

#[test]
fn empty_path_changes_nothing() {
    let mut root = Mod::new();
    root.push(&[]);
    assert_eq!(root.render(false), "");
}

#[test]
fn two_packages_nest_under_their_common_module() {
    let mut root = Mod::new();
    root.push(&path(&["a", "b"]));
    root.push(&path(&["a", "c"]));
    assert_eq!(
        root.render(false),
        "pub mod a {\n\
         pub mod b {\ninclude!(concat!(\"a.b\", \".rs\"));\n}\n\
         pub mod c {\ninclude!(concat!(\"a.c\", \".rs\"));\n}\n\
         }\n"
    );
}

#[test]
fn pushing_twice_is_pushing_once() {
    let mut once = Mod::new();
    once.push(&path(&["a", "b"]));
    let mut twice = Mod::new();
    twice.push(&path(&["a", "b"]));
    twice.push(&path(&["a", "b"]));
    assert_eq!(once.render(false), twice.render(false));
    assert_eq!(once.render(true), twice.render(true));
    assert_eq!(once.render(false), "pub mod a {\npub mod b {\ninclude!(concat!(\"a.b\", \".rs\"));\n}\n}\n");
}

#[test]
fn modules_come_out_in_order_of_their_names() {
    let mut forward = Mod::new();
    let mut backward = Mod::new();
    let names = ["b", "a", "c", "ab", "B", "a_"];
    for n in names.iter() {
        forward.push(&path(&[n]));
    }
    for n in names.iter().rev() {
        backward.push(&path(&[n]));
    }
    let text = forward.render(false);
    assert_eq!(text, backward.render(false));
    let order: Vec<usize> =
        ["B", "a", "a_", "ab", "b", "c"].iter().map(|n| text.find(&format!("pub mod {} {{", n)).unwrap()).collect();
    let mut sorted = order.clone();
    sorted.sort();
    assert_eq!(order, sorted);
}

#[test]
fn package_that_is_a_prefix_of_another_keeps_its_own_file() {
    let mut root = Mod::new();
    root.push(&path(&["a", "b"]));
    root.push(&path(&["a"]));
    assert_eq!(
        root.render(false),
        "pub mod a {\ninclude!(concat!(\"a\", \".rs\"));\npub mod b {\ninclude!(concat!(\"a.b\", \".rs\"));\n}\n}\n"
    );
}

#[test]
fn package_of_a_generated_crate_is_behind_its_feature() {
    let mut root = Mod::new();
    root.push(&path(&["pkg", "a"]));
    assert_eq!(
        root.render(true),
        "pub mod pkg {\npub mod a {\n\
         #[cfg(feature = \"pkg.a\")]\n\
         include!(concat!(env!(\"CARGO_MANIFEST_DIR\"), \"/gen/\", \"pkg.a\", \".rs\"));\n\
         }\n}\n"
    );
}

#[test]
fn package_name_is_written_as_a_literal() {
    let mut root = Mod::new();
    root.push(&path(&["we\"ird"]));
    assert_eq!(root.render(false), "pub mod we\"ird {\ninclude!(concat!(\"we\\\"ird\", \".rs\"));\n}\n");
}

#[test]
fn add_records_the_package_at_the_given_path() {
    let mut root = Mod::new();
    root.add(path(&["x", "y"]), "m", &path(&["n"]));
    assert_eq!(root.render(false), "pub mod m {\npub mod n {\ninclude!(concat!(\"x.y\", \".rs\"));\n}\n}\n");
    // a second package at the same path takes the place of the first
    root.add(path(&["z"]), "m", &path(&["n"]));
    assert_eq!(root.render(false), "pub mod m {\npub mod n {\ninclude!(concat!(\"z\", \".rs\"));\n}\n}\n");
}

#[test]
fn statements_from_given_literals() {
    assert_eq!(include_stmt("\"p\"", false), "include!(concat!(\"p\", \".rs\"));\n");
    assert_eq!(
        include_stmt("\"p\"", true),
        "#[cfg(feature = \"p\")]\ninclude!(concat!(env!(\"CARGO_MANIFEST_DIR\"), \"/gen/\", \"p\", \".rs\"));\n"
    );
    assert_eq!(module_decl("m", "x\n"), "pub mod m {\nx\n}\n");
    assert_eq!(module_decl("m", ""), "pub mod m {\n}\n");
}

#[test]
fn rendered_text_is_source_text() {
    let mut root = Mod::new();
    root.push(&path(&["a", "b"]));
    root.push(&path(&["a", "c"]));
    root.push(&path(&["d"]));
    for krate in [false, true] {
        let file = syn::parse_file(&root.render(krate)).unwrap();
        assert_eq!(file.items.len(), 2);
    }
}
