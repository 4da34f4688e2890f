//! The generator: its own options on top of the translator's, and the list
//! of files that one run puts out.

use vstd::prelude::*;
use vstd::string::StringExecFns;
use crate::args::{config_of, is_config_option, option_parts, split_option, Config, ConfigView};
use crate::deps::{FileDescriptor, FileView};
use crate::literal::{quote_str, string_literal};
use crate::manifest::{gen_manifest, manifest_text};
use crate::modules::{order_modules, ordered_modules};
use crate::text::{chars_are, chars_of, join, join_strings, string_of, texts};
use crate::tree::{empty_node, pushed, render_text, Mod, Node};

verus! {

/// What a recognised option of the generator sets.
#[derive(Clone, Copy, Debug, PartialEq, Eq)]
pub enum GeneratorKey {
    /// The empty option, which sets nothing.
    Nothing,
    /// `include_file`: an include file under its usual name.
    IncludeFile,
    /// `include_file=name`: an include file under the given name.
    IncludeFileName,
    /// `gen_crate`: a package manifest from the usual template.
    GenCrate,
    /// `gen_crate=path`: a package manifest from the given template.
    GenCrateTemplate,
    /// `file_descriptor_set`: the descriptor set under its usual name.
    FileDescriptorSet,
    /// `file_descriptor_set=name`: the descriptor set under the given name.
    FileDescriptorSetName,
}

/// The table of the generator's own options, by key and number of parts.
pub open spec fn generator_key(parts: Seq<Seq<char>>) -> Option<GeneratorKey> {
    if parts.len() == 1 {
        if parts[0].len() == 0 {
            Some(GeneratorKey::Nothing)
        } else if parts[0] == "include_file"@ {
            Some(GeneratorKey::IncludeFile)
        } else if parts[0] == "gen_crate"@ {
            Some(GeneratorKey::GenCrate)
        } else if parts[0] == "file_descriptor_set"@ {
            Some(GeneratorKey::FileDescriptorSet)
        } else {
            None
        }
    } else if parts.len() == 2 {
        if parts[0] == "include_file"@ {
            Some(GeneratorKey::IncludeFileName)
        } else if parts[0] == "gen_crate"@ {
            Some(GeneratorKey::GenCrateTemplate)
        } else if parts[0] == "file_descriptor_set"@ {
            Some(GeneratorKey::FileDescriptorSetName)
        } else {
            None
        }
    } else {
        None
    }
}

/// Whether `opt` is one of the generator's own options.
pub open spec fn is_generator_option(opt: Seq<char>) -> bool {
    generator_key(option_parts(opt)) is Some
}

/// Whether `opt` is recognised at all: by the translator's configuration,
/// by the generator, or by both. An option that both tables hold sets what
/// each of them says.
pub open spec fn is_recognized(opt: Seq<char>) -> bool {
    is_config_option(opt) || is_generator_option(opt)
}

/// What the generator's own options have set while they are read.
pub ghost struct Extras {
    /// The name given for the include file.
    pub include_file: Option<Seq<char>>,
    /// Whether an include file was asked for without a name.
    pub include_flag: bool,
    /// The path of the manifest template.
    pub manifest_tpl: Option<Seq<char>>,
    /// The name of the descriptor set file.
    pub file_descriptor_set: Option<Seq<char>>,
}

/// Nothing set.
pub open spec fn no_extras() -> Extras {
    Extras { include_file: None, include_flag: false, manifest_tpl: None, file_descriptor_set: None }
}

/// `e` after the option `opt` is read.
pub open spec fn extras_with(e: Extras, opt: Seq<char>) -> Extras {
    let parts = option_parts(opt);
    match generator_key(parts) {
        None | Some(GeneratorKey::Nothing) => e,
        Some(GeneratorKey::IncludeFile) => Extras { include_flag: true, ..e },
        Some(GeneratorKey::IncludeFileName) => Extras { include_file: Some(parts[1]), ..e },
        Some(GeneratorKey::GenCrate) => Extras { manifest_tpl: Some("Cargo.toml.tpl"@), ..e },
        Some(GeneratorKey::GenCrateTemplate) => Extras { manifest_tpl: Some(parts[1]), ..e },
        Some(GeneratorKey::FileDescriptorSet) => Extras {
            file_descriptor_set: Some("file_descriptor_set.rs"@),
            ..e
        },
        Some(GeneratorKey::FileDescriptorSetName) => Extras {
            file_descriptor_set: Some(parts[1]),
            ..e
        },
    }
}

/// What the options `opts` set, read in order.
pub open spec fn extras_of(opts: Seq<Seq<char>>) -> Extras
    decreases opts.len(),
{
    if opts.len() == 0 {
        no_extras()
    } else {
        extras_with(extras_of(opts.drop_last()), opts.last())
    }
}

/// The name of the include file. A name that was given stands. Without one,
/// a run that writes a package manifest has `lib.rs`, the entry point of a
/// library package; any other run has `mod.rs` where an include file was
/// asked for, and no include file where it was not.
pub open spec fn include_file_name(e: Extras) -> Option<Seq<char>> {
    if e.include_file is Some {
        e.include_file
    } else if e.manifest_tpl is Some {
        Some("lib.rs"@)
    } else if e.include_flag {
        Some("mod.rs"@)
    } else {
        None
    }
}

/// The options of `opts` that nothing recognises, in their order.
pub open spec fn leftovers_of(opts: Seq<Seq<char>>) -> Seq<Seq<char>> {
    opts.filter(|opt: Seq<char>| !is_recognized(opt))
}

/// PROST code generator: the translator's configuration, with extras.
pub struct Generator {
    /// Settings of the translation proper.
    pub config: Config,
    /// Name of the include file, if one is written.
    pub include_file: Option<String>,
    /// Path of the manifest template, if a manifest is written.
    pub manifest_tpl: Option<String>,
    /// Name of the descriptor set file, if one is written.
    pub file_descriptor_set: Option<String>,
}

/// What a [`Generator`] holds, as plain sequences.
pub ghost struct GeneratorView {
    pub config: ConfigView,
    pub include_file: Option<Seq<char>>,
    pub manifest_tpl: Option<Seq<char>>,
    pub file_descriptor_set: Option<Seq<char>>,
}

impl View for Generator {
    type V = GeneratorView;

    open spec fn view(&self) -> GeneratorView {
        GeneratorView {
            config: self.config@,
            include_file: self.include_file.deep_view(),
            manifest_tpl: self.manifest_tpl.deep_view(),
            file_descriptor_set: self.file_descriptor_set.deep_view(),
        }
    }
}

impl Default for Generator {
    /// The generator that no option has set.
    fn default() -> (generator: Generator)
        ensures
            generator@ == generator_of(Seq::empty()),
    {
        Generator { config: Config::new(), include_file: None, manifest_tpl: None, file_descriptor_set: None }
    }
}

/// The generator that the options `opts` describe. Every option is read
/// both for the translator's configuration and for the generator's own
/// settings: `include_file=name` names the include file of both, and
/// `file_descriptor_set=name` gives both the path where the translator
/// writes the descriptor set and the name of the generator's file for it.
pub open spec fn generator_of(opts: Seq<Seq<char>>) -> GeneratorView {
    let e = extras_of(opts);
    GeneratorView {
        config: config_of(opts),
        include_file: include_file_name(e),
        manifest_tpl: e.manifest_tpl,
        file_descriptor_set: e.file_descriptor_set,
    }
}

/// Looks the parts of an option up in the table of the generator's options.
pub fn lookup_generator_key(parts: &Vec<Vec<char>>) -> (key: Option<GeneratorKey>)
    ensures
        key == generator_key(texts(parts@)),
{
    if parts.len() == 1 {
        if parts[0].len() == 0 {
            Some(GeneratorKey::Nothing)
        } else if chars_are(&parts[0], "include_file") {
            Some(GeneratorKey::IncludeFile)
        } else if chars_are(&parts[0], "gen_crate") {
            Some(GeneratorKey::GenCrate)
        } else if chars_are(&parts[0], "file_descriptor_set") {
            Some(GeneratorKey::FileDescriptorSet)
        } else {
            None
        }
    } else if parts.len() == 2 {
        if chars_are(&parts[0], "include_file") {
            Some(GeneratorKey::IncludeFileName)
        } else if chars_are(&parts[0], "gen_crate") {
            Some(GeneratorKey::GenCrateTemplate)
        } else if chars_are(&parts[0], "file_descriptor_set") {
            Some(GeneratorKey::FileDescriptorSetName)
        } else {
            None
        }
    } else {
        None
    }
}

impl Generator {
    /// Create a new generator from a list of options, as given by protoc
    /// directly.
    ///
    /// Returns the generator that the recognised options describe, and the
    /// options that were not recognised: each of them once, unchanged and in
    /// the order given.
    pub fn new_from_opts(opts: Vec<String>) -> (ret: (Self, Vec<String>))
        ensures
            ret.0@ == generator_of(opts.deep_view()),
            ret.1.deep_view() == leftovers_of(opts.deep_view()),
    {
        let mut config = Config::new();
        let ghost all = opts.deep_view();
        let mut include_name: Option<String> = None;
        let mut manifest_tpl: Option<String> = None;
        let mut file_descriptor_set: Option<String> = None;
        let mut include_flag = false;
        let mut leftovers: Vec<String> = Vec::new();
        let mut i: usize = 0;
        proof {
            reveal(Seq::filter);
            assert(all.take(0) == Seq::<Seq<char>>::empty());
            assert(leftovers.deep_view() == Seq::<Seq<char>>::empty());
        }
        while i < opts.len()
            invariant
                i <= opts.len(),
                all == opts.deep_view(),
                config@ == config_of(all.take(i as int)),
                extras_of(all.take(i as int)) == (Extras {
                    include_file: include_name.deep_view(),
                    include_flag,
                    manifest_tpl: manifest_tpl.deep_view(),
                    file_descriptor_set: file_descriptor_set.deep_view(),
                }),
                leftovers.deep_view() == leftovers_of(all.take(i as int)),
            decreases opts.len() - i,
        {
            let configured = config.apply(opts[i].as_str());
            let parts = split_option(opts[i].as_str());
            proof {
                reveal(Seq::filter);
                assert(all.take(i + 1).drop_last() == all.take(i as int));
                assert(all.take(i + 1).last() == opts[i as int]@);
            }
            match lookup_generator_key(&parts) {
                None => {
                    if !configured {
                        let ghost before = leftovers.deep_view();
                        leftovers.push(opts[i].clone());
                        assert(leftovers.deep_view() == before.push(opts[i as int]@));
                    }
                },
                Some(GeneratorKey::Nothing) => {},
                Some(GeneratorKey::IncludeFile) => {
                    include_flag = true;
                },
                Some(GeneratorKey::IncludeFileName) => {
                    include_name = Some(string_of(&parts[1]));
                },
                Some(GeneratorKey::GenCrate) => {
                    manifest_tpl = Some(String::from_str("Cargo.toml.tpl"));
                },
                Some(GeneratorKey::GenCrateTemplate) => {
                    manifest_tpl = Some(string_of(&parts[1]));
                },
                Some(GeneratorKey::FileDescriptorSet) => {
                    file_descriptor_set = Some(String::from_str("file_descriptor_set.rs"));
                },
                Some(GeneratorKey::FileDescriptorSetName) => {
                    file_descriptor_set = Some(string_of(&parts[1]));
                },
            }
            i += 1;
        }
        assert(all.take(opts.len() as int) == all);
        // Sane defaults for the include file. Outside a package, `mod.rs`
        // lets the output be dropped straight into a source directory; in a
        // package, `lib.rs` is what makes it a library.
        let include_file = if include_name.is_some() {
            include_name
        } else if manifest_tpl.is_some() {
            Some(String::from_str("lib.rs"))
        } else if include_flag {
            Some(String::from_str("mod.rs"))
        } else {
            None
        };
        (Generator { config, include_file, manifest_tpl, file_descriptor_set }, leftovers)
    }
}

/// What a generated file is.
#[derive(Clone, Copy, Debug, PartialEq, Eq)]
pub enum FileKind {
    /// The source text of one module, as the translator wrote it.
    Module,
    /// The source file that includes every module at its place.
    Include,
    /// The package manifest.
    Manifest,
    /// The source file that holds the descriptor set as a constant.
    DescriptorSet,
}

/// One file of the output: where it goes and what it holds.
pub struct GeneratedFile {
    /// The file's path below the output directory.
    pub name: String,
    /// The file's text.
    pub content: String,
    /// What the file is. All kinds but the manifest are source text.
    pub kind: FileKind,
}

/// What a [`GeneratedFile`] holds, as plain sequences.
pub ghost struct FileOut {
    pub name: Seq<char>,
    pub content: Seq<char>,
    pub kind: FileKind,
}

impl View for GeneratedFile {
    type V = FileOut;

    open spec fn view(&self) -> FileOut {
        FileOut { name: self.name@, content: self.content@, kind: self.kind }
    }
}

impl DeepView for GeneratedFile {
    type V = FileOut;

    open spec fn deep_view(&self) -> FileOut {
        self@
    }
}

impl GeneratedFile {
    /// Whether the file holds source text, which a formatter can lay out.
    pub fn is_source(&self) -> (r: bool)
        ensures
            r == (self.kind != FileKind::Manifest),
    {
        match self.kind {
            FileKind::Manifest => false,
            _ => true,
        }
    }
}

/// Why no files could be put out.
#[derive(Clone, Copy, Debug, PartialEq, Eq)]
pub enum GenerateError {
    /// A manifest was asked for, and no template text was given.
    TemplateMissing,
}

impl GenerateError {
    /// The error in words.
    pub fn message(&self) -> (out: String)
        ensures
            out@ == "Cargo.toml gen failed: the template was not read"@,
    {
        String::from_str("Cargo.toml gen failed: the template was not read")
    }
}

/// The two digits of a byte in base sixteen, after `0x`.
pub open spec fn hex_byte(b: u8) -> Seq<char> {
    "0x"@.push("0123456789abcdef"@[b as int / 16]).push("0123456789abcdef"@[b as int % 16])
}

/// The source text of the constant that holds `bytes`.
pub open spec fn descriptor_text(bytes: Seq<u8>) -> Seq<char> {
    "pub const FILE_DESCRIPTOR_SET: &[u8] = &["@ + join(bytes.map_values(|b: u8| hex_byte(b)), ", "@)
        + "];"@
}

/// The tree that holds the packages at the module paths `paths`.
pub open spec fn tree_of(paths: Seq<Seq<Seq<char>>>) -> Node
    decreases paths.len(),
{
    if paths.len() == 0 {
        empty_node()
    } else {
        pushed(tree_of(paths.drop_last()), paths.last())
    }
}

/// The module paths of `modules`.
pub open spec fn paths_of(modules: Seq<(Seq<Seq<char>>, Seq<char>)>) -> Seq<Seq<Seq<char>>> {
    modules.map_values(|m: (Seq<Seq<char>>, Seq<char>)| m.0)
}

/// The statement that includes the descriptor set file named by the string
/// literal `literal`.
pub open spec fn descriptor_include(literal: Seq<char>, krate: bool) -> Seq<char> {
    if krate {
        "#[cfg(feature = \"file_descriptor_set\")]\ninclude!(concat!(env!(\"CARGO_MANIFEST_DIR\"), \"/gen/\", "@
            + literal + "));\n"@
    } else {
        "include!("@ + literal + ");\n"@
    }
}

/// The text of the include file: the inclusion of the descriptor set file,
/// if there is one, and then the tree of the modules.
pub open spec fn include_source(g: GeneratorView, paths: Seq<Seq<Seq<char>>>) -> Seq<char> {
    let krate = g.manifest_tpl is Some;
    let desc = match g.file_descriptor_set {
        Some(name) => descriptor_include(string_literal(name), krate),
        None => Seq::empty(),
    };
    desc + render_text(tree_of(paths), krate)
}

/// The directory of the generated modules: `gen/` in a package, none
/// otherwise.
pub open spec fn proto_prefix(g: GeneratorView) -> Seq<char> {
    if g.manifest_tpl is Some {
        "gen/"@
    } else {
        Seq::empty()
    }
}

/// The directory of the include file: `src/` in a package, none otherwise.
pub open spec fn include_prefix(g: GeneratorView) -> Seq<char> {
    if g.manifest_tpl is Some {
        "src/"@
    } else {
        Seq::empty()
    }
}

/// The file of one module: named by its dotted path, with the text that
/// the translator gave.
pub open spec fn module_file(g: GeneratorView, module: (Seq<Seq<char>>, Seq<char>)) -> FileOut {
    FileOut {
        name: proto_prefix(g) + join(module.0, "."@) + ".rs"@,
        content: module.1,
        kind: FileKind::Module,
    }
}

/// The files that come after the modules: the include file, the manifest
/// and the descriptor set, each only where the generator is set to write it.
pub open spec fn extra_files(
    g: GeneratorView,
    files: Seq<FileView>,
    paths: Seq<Seq<Seq<char>>>,
    template: Seq<char>,
    set: Seq<u8>,
) -> Seq<FileOut> {
    let include_file = match g.include_file {
        Some(name) => seq![
            FileOut {
                name: include_prefix(g) + name,
                content: include_source(g, paths),
                kind: FileKind::Include,
            },
        ],
        None => Seq::empty(),
    };
    let manifest = if g.manifest_tpl is Some {
        seq![
            FileOut {
                name: "Cargo.toml"@,
                content: manifest_text(template, files, g.file_descriptor_set is Some),
                kind: FileKind::Manifest,
            },
        ]
    } else {
        Seq::empty()
    };
    let set_file = match g.file_descriptor_set {
        Some(name) => seq![
            FileOut {
                name: proto_prefix(g) + name,
                content: descriptor_text(set),
                kind: FileKind::DescriptorSet,
            },
        ],
        None => Seq::empty(),
    };
    include_file + manifest + set_file
}

/// The files of one run, in order: one for each module, then the extras.
pub open spec fn generated(
    g: GeneratorView,
    files: Seq<FileView>,
    modules: Seq<(Seq<Seq<char>>, Seq<char>)>,
    template: Seq<char>,
    set: Seq<u8>,
) -> Seq<FileOut> {
    modules.map_values(|m: (Seq<Seq<char>>, Seq<char>)| module_file(g, m)) + extra_files(
        g,
        files,
        paths_of(modules),
        template,
        set,
    )
}

/// Writes a byte as `0x` and two digits in base sixteen.
pub fn hex_of(b: u8) -> (out: String)
    ensures
        out@ == hex_byte(b),
{
    let digits = chars_of("0123456789abcdef");
    proof {
        reveal_strlit("0123456789abcdef");
    }
    let mut text = chars_of("0x");
    text.push(digits[(b / 16) as usize]);
    text.push(digits[(b % 16) as usize]);
    string_of(&text)
}

/// Writes the source text of the constant that holds `bytes`.
///
/// The bytes are spelled out one by one, since the text must be printable.
pub fn descriptor_source(bytes: &[u8]) -> (out: String)
    ensures
        out@ == descriptor_text(bytes@),
{
    let mut items: Vec<String> = Vec::new();
    let mut i: usize = 0;
    while i < bytes.len()
        invariant
            i <= bytes.len(),
            items.deep_view() == bytes@.take(i as int).map_values(|b: u8| hex_byte(b)),
        decreases bytes.len() - i,
    {
        let item = hex_of(bytes[i]);
        let ghost before = items.deep_view();
        items.push(item);
        assert(items.deep_view() == before.push(hex_byte(bytes@[i as int])));
        assert(bytes@.take(i + 1) == bytes@.take(i as int).push(bytes@[i as int]));
        assert(items.deep_view() == bytes@.take(i + 1).map_values(|b: u8| hex_byte(b)));
        i += 1;
    }
    assert(bytes@.take(bytes.len() as int) == bytes@);
    let mut out = String::from_str("pub const FILE_DESCRIPTOR_SET: &[u8] = &[");
    let inner = join_strings(&items, ", ");
    out.append(inner.as_str());
    out.append("];");
    out
}

/// Writes the statement that includes the descriptor set file, given the
/// file's name as a string literal.
pub fn descriptor_include_stmt(literal: &str, krate: bool) -> (out: String)
    ensures
        out@ == descriptor_include(literal@, krate),
{
    let mut out = String::new();
    if krate {
        out.append(
            "#[cfg(feature = \"file_descriptor_set\")]\ninclude!(concat!(env!(\"CARGO_MANIFEST_DIR\"), \"/gen/\", ",
        );
        out.append(literal);
        out.append("));\n");
    } else {
        out.append("include!(");
        out.append(literal);
        out.append(");\n");
    }
    out
}

/// `a` followed by `b`.
fn concat2(a: &str, b: &str) -> (out: String)
    ensures
        out@ == a@ + b@,
{
    let mut out = String::from_str(a);
    out.append(b);
    out
}

impl Generator {
    /// Whether a package is generated, with a manifest and its own layout.
    pub fn is_crate(&self) -> (r: bool)
        ensures
            r == (self@.manifest_tpl is Some),
    {
        self.manifest_tpl.is_some()
    }

    /// Writes the include file for the generated `modules`.
    pub fn gen_include_file(&self, modules: &Vec<(Vec<String>, String)>) -> (out: String)
        ensures
            out@ == include_source(self@, paths_of(modules.deep_view())),
    {
        let ghost paths = paths_of(modules.deep_view());
        let mut root = Mod::new();
        let mut i: usize = 0;
        assert(paths.take(0) == Seq::<Seq<Seq<char>>>::empty());
        while i < modules.len()
            invariant
                i <= modules.len(),
                paths == paths_of(modules.deep_view()),
                paths.len() == modules.len(),
                root@ == tree_of(paths.take(i as int)),
            decreases modules.len() - i,
        {
            proof {
                assert(paths.take(i + 1).drop_last() == paths.take(i as int));
                assert(paths.take(i + 1).last() == modules[i as int].0.deep_view());
            }
            let path = modules[i].0.as_slice();
            assert(path.deep_view() == modules[i as int].0.deep_view());
            root.push(path);
            i += 1;
        }
        assert(paths.take(modules.len() as int) == paths);
        let krate = self.is_crate();
        let mut out = match &self.file_descriptor_set {
            Some(name) => {
                let literal = quote_str(name.as_str());
                descriptor_include_stmt(literal.as_str(), krate)
            },
            None => String::new(),
        };
        let file = root.render(krate);
        out.append(file.as_str());
        out
    }

    /// Puts together the files of one run.
    ///
    /// `protos` are the schema files of the request and `modules` what the
    /// translator made of them, each module with its path and its text.
    /// `template` is the text of the manifest template, and `descriptor_set`
    /// the encoded set of all of `protos`; each is read only where the
    /// generator is set to write the file that needs it.
    ///
    /// The result lists one file for each module, in the order of the
    /// modules' paths, then the include file, the manifest and the
    /// descriptor set. Where a
    /// manifest is asked for and `template` is missing, there is no result.
    pub fn generate(
        self,
        protos: &[FileDescriptor],
        modules: Vec<(Vec<String>, String)>,
        template: Option<&str>,
        descriptor_set: &[u8],
    ) -> (ret: Result<Vec<GeneratedFile>, GenerateError>)
        ensures
            match ret {
                Ok(files) => (self@.manifest_tpl is Some ==> template is Some) && files.deep_view()
                    == generated(
                    self@,
                    protos.deep_view(),
                    ordered_modules(modules.deep_view()),
                    match template {
                        Some(t) => t@,
                        None => Seq::empty(),
                    },
                    descriptor_set@,
                ),
                Err(e) => self@.manifest_tpl is Some && template is None && e
                    == GenerateError::TemplateMissing,
            },
    {
        let ghost g = self@;
        let modules = order_modules(modules);
        let ghost all = modules.deep_view();
        let krate = self.is_crate();
        let manifest = if krate {
            match template {
                Some(tpl) => {
                    let toml = gen_manifest(tpl, protos, self.file_descriptor_set.is_some());
                    Some(
                        GeneratedFile {
                            name: String::from_str("Cargo.toml"),
                            content: toml,
                            kind: FileKind::Manifest,
                        },
                    )
                },
                None => {
                    return Err(GenerateError::TemplateMissing);
                },
            }
        } else {
            None
        };
        let proto_dir = if krate { "gen/" } else { "" };
        let include_dir = if krate { "src/" } else { "" };
        proof {
            reveal_strlit("");
            assert(""@ == Seq::<char>::empty());
        }
        let set_file = match &self.file_descriptor_set {
            Some(name) => Some(
                GeneratedFile {
                    name: concat2(proto_dir, name.as_str()),
                    content: descriptor_source(descriptor_set),
                    kind: FileKind::DescriptorSet,
                },
            ),
            None => None,
        };
        let include_file = match &self.include_file {
            Some(name) => Some(
                GeneratedFile {
                    name: concat2(include_dir, name.as_str()),
                    content: self.gen_include_file(&modules),
                    kind: FileKind::Include,
                },
            ),
            None => None,
        };
        let mut files: Vec<GeneratedFile> = Vec::new();
        let mut i: usize = 0;
        assert(all.take(0).map_values(|m: (Seq<Seq<char>>, Seq<char>)| module_file(g, m)) == Seq::<
            FileOut,
        >::empty());
        assert(files.deep_view() == Seq::<FileOut>::empty());
        while i < modules.len()
            invariant
                i <= modules.len(),
                all == modules.deep_view(),
                proto_dir@ == proto_prefix(g),
                files.deep_view() == all.take(i as int).map_values(
                    |m: (Seq<Seq<char>>, Seq<char>)| module_file(g, m),
                ),
            decreases modules.len() - i,
        {
            let mut name = String::from_str(proto_dir);
            let stem = join_strings(&modules[i].0, ".");
            name.append(stem.as_str());
            name.append(".rs");
            let file = GeneratedFile { name, content: modules[i].1.clone(), kind: FileKind::Module };
            let ghost before = files.deep_view();
            files.push(file);
            proof {
                assert(all[i as int] == (modules[i as int].0.deep_view(), modules[i as int].1@));
                assert(files.deep_view() == before.push(module_file(g, all[i as int])));
                assert(all.take(i + 1) == all.take(i as int).push(all[i as int]));
                assert(files.deep_view() == all.take(i + 1).map_values(
                    |m: (Seq<Seq<char>>, Seq<char>)| module_file(g, m),
                ));
            }
            i += 1;
        }
        assert(all.take(modules.len() as int) == all);
        let ghost listed = files.deep_view();
        let ghost tpl = match template {
            Some(t) => t@,
            None => Seq::empty(),
        };
        let ghost extras = extra_files(g, protos.deep_view(), paths_of(all), tpl, descriptor_set@);
        let ghost mut tail = Seq::<FileOut>::empty();
        if let Some(file) = include_file {
            let ghost before = files.deep_view();
            proof {
                tail = tail.push(file@);
            }
            files.push(file);
            assert(files.deep_view() == before.push(file@));
        }
        if let Some(file) = manifest {
            let ghost before = files.deep_view();
            proof {
                tail = tail.push(file@);
            }
            files.push(file);
            assert(files.deep_view() == before.push(file@));
        }
        if let Some(file) = set_file {
            let ghost before = files.deep_view();
            proof {
                tail = tail.push(file@);
            }
            files.push(file);
            assert(files.deep_view() == before.push(file@));
        }
        proof {
            assert(files.deep_view() == listed + tail);
            assert(tail == extras);
        }
        Ok(files)
    }
}

} // verus!
