//! Options of the code generator proper.
//!
//! A raw option has the form `key`, `key=value` or `key=subkey=value`. The
//! options listed here configure the step that turns schema files into
//! source text; every other option is handed back untouched, for whoever comes
//! next.

use vstd::prelude::*;
use crate::text::{chars_are, chars_of, string_of, texts};

verus! {

/// The first position at or after `from` where `c` stands in `s`, or the
/// length of `s` where there is none.
pub open spec fn position(s: Seq<char>, c: char, from: int) -> int
    decreases s.len() - from,
{
    if from >= s.len() {
        s.len() as int
    } else if from >= 0 && s[from] == c {
        from
    } else {
        position(s, c, from + 1)
    }
}

/// The parts of a raw option: it is cut at its first two `=`, so there are
/// at most three, and the last one may hold further `=`.
pub open spec fn option_parts(opt: Seq<char>) -> Seq<Seq<char>> {
    let i = position(opt, '=', 0);
    if !(0 <= i < opt.len()) {
        seq![opt]
    } else {
        let j = position(opt, '=', i + 1);
        if !(i < j < opt.len()) {
            seq![opt.take(i), opt.skip(i + 1)]
        } else {
            seq![opt.take(i), opt.subrange(i + 1, j), opt.skip(j + 1)]
        }
    }
}

/// What a recognised option sets.
#[derive(Clone, Copy, Debug, PartialEq, Eq)]
pub enum ConfigKey {
    /// The empty option, which sets nothing.
    Nothing,
    /// `btree_map=path`
    BtreeMap,
    /// `bytes=path`
    Bytes,
    /// `compile_well_known_types`
    CompileWellKnownTypes,
    /// `default_package_filename=name`
    DefaultPackageFilename,
    /// `disable_comments=path`
    DisableComments,
    /// `extern_path=proto_path=rust_path`
    ExternPath,
    /// `field_attribute=path=attribute`
    FieldAttribute,
    /// `file_descriptor_set=path`
    FileDescriptorSetPath,
    /// `include_file=name`
    IncludeFile,
    /// `retain_enum_prefix`
    RetainEnumPrefix,
    /// `type_attribute=path=attribute`
    TypeAttribute,
}

/// The table of recognised options: a key and the number of parts it comes
/// with select what is set. An option that matches no row is not for this
/// configuration.
pub open spec fn config_key(parts: Seq<Seq<char>>) -> Option<ConfigKey> {
    if parts.len() == 1 {
        if parts[0].len() == 0 {
            Some(ConfigKey::Nothing)
        } else if parts[0] == "compile_well_known_types"@ {
            Some(ConfigKey::CompileWellKnownTypes)
        } else if parts[0] == "retain_enum_prefix"@ {
            Some(ConfigKey::RetainEnumPrefix)
        } else {
            None
        }
    } else if parts.len() == 2 {
        if parts[0] == "btree_map"@ {
            Some(ConfigKey::BtreeMap)
        } else if parts[0] == "bytes"@ {
            Some(ConfigKey::Bytes)
        } else if parts[0] == "default_package_filename"@ {
            Some(ConfigKey::DefaultPackageFilename)
        } else if parts[0] == "disable_comments"@ {
            Some(ConfigKey::DisableComments)
        } else if parts[0] == "file_descriptor_set"@ {
            Some(ConfigKey::FileDescriptorSetPath)
        } else if parts[0] == "include_file"@ {
            Some(ConfigKey::IncludeFile)
        } else {
            None
        }
    } else if parts.len() == 3 {
        if parts[0] == "extern_path"@ {
            Some(ConfigKey::ExternPath)
        } else if parts[0] == "field_attribute"@ {
            Some(ConfigKey::FieldAttribute)
        } else if parts[0] == "type_attribute"@ {
            Some(ConfigKey::TypeAttribute)
        } else {
            None
        }
    } else {
        None
    }
}

/// Whether `opt` is an option of the translator's configuration.
pub open spec fn is_config_option(opt: Seq<char>) -> bool {
    config_key(option_parts(opt)) is Some
}

/// Settings of the step that turns schema files into source text.
///
/// Lists keep every occurrence of their option, in the order given; a
/// setting that holds one value keeps the last one given.
pub struct Config {
    /// Paths of map fields that are generated as ordered maps.
    pub btree_map: Vec<String>,
    /// Paths of byte fields that are generated as shared buffers.
    pub bytes: Vec<String>,
    /// Paths whose comments are left out of the generated text.
    pub disable_comments: Vec<String>,
    /// Whether the well-known types are generated rather than imported.
    pub compile_well_known_types: bool,
    /// Whether enum variants keep the prefix that repeats the enum's name.
    pub retain_enum_prefix: bool,
    /// Name of the output for files that declare no package.
    pub default_package_filename: Option<String>,
    /// Schema paths that are provided by existing source paths.
    pub extern_paths: Vec<(String, String)>,
    /// Attributes added to the fields at the given paths.
    pub field_attributes: Vec<(String, String)>,
    /// Attributes added to the types at the given paths.
    pub type_attributes: Vec<(String, String)>,
    /// Where the translator writes the descriptor set it was given.
    pub file_descriptor_set_path: Option<String>,
    /// Name of the include file that the translator writes by itself.
    pub include_file: Option<String>,
}

/// What a [`Config`] holds, as plain sequences.
pub ghost struct ConfigView {
    pub btree_map: Seq<Seq<char>>,
    pub bytes: Seq<Seq<char>>,
    pub disable_comments: Seq<Seq<char>>,
    pub compile_well_known_types: bool,
    pub retain_enum_prefix: bool,
    pub default_package_filename: Option<Seq<char>>,
    pub extern_paths: Seq<(Seq<char>, Seq<char>)>,
    pub field_attributes: Seq<(Seq<char>, Seq<char>)>,
    pub type_attributes: Seq<(Seq<char>, Seq<char>)>,
    pub file_descriptor_set_path: Option<Seq<char>>,
    pub include_file: Option<Seq<char>>,
}

impl View for Config {
    type V = ConfigView;

    open spec fn view(&self) -> ConfigView {
        ConfigView {
            btree_map: self.btree_map.deep_view(),
            bytes: self.bytes.deep_view(),
            disable_comments: self.disable_comments.deep_view(),
            compile_well_known_types: self.compile_well_known_types,
            retain_enum_prefix: self.retain_enum_prefix,
            default_package_filename: self.default_package_filename.deep_view(),
            extern_paths: self.extern_paths.deep_view(),
            field_attributes: self.field_attributes.deep_view(),
            type_attributes: self.type_attributes.deep_view(),
            file_descriptor_set_path: self.file_descriptor_set_path.deep_view(),
            include_file: self.include_file.deep_view(),
        }
    }
}

/// The configuration before any option is read.
pub open spec fn empty_config() -> ConfigView {
    ConfigView {
        btree_map: Seq::empty(),
        bytes: Seq::empty(),
        disable_comments: Seq::empty(),
        compile_well_known_types: false,
        retain_enum_prefix: false,
        default_package_filename: None,
        extern_paths: Seq::empty(),
        field_attributes: Seq::empty(),
        type_attributes: Seq::empty(),
        file_descriptor_set_path: None,
        include_file: None,
    }
}

/// The configuration `c` after the option `opt` is read.
pub open spec fn config_with(c: ConfigView, opt: Seq<char>) -> ConfigView {
    let parts = option_parts(opt);
    match config_key(parts) {
        None | Some(ConfigKey::Nothing) => c,
        Some(ConfigKey::BtreeMap) => ConfigView { btree_map: c.btree_map.push(parts[1]), ..c },
        Some(ConfigKey::Bytes) => ConfigView { bytes: c.bytes.push(parts[1]), ..c },
        Some(ConfigKey::CompileWellKnownTypes) => ConfigView { compile_well_known_types: true, ..c },
        Some(ConfigKey::DefaultPackageFilename) => ConfigView {
            default_package_filename: Some(parts[1]),
            ..c
        },
        Some(ConfigKey::DisableComments) => ConfigView {
            disable_comments: c.disable_comments.push(parts[1]),
            ..c
        },
        Some(ConfigKey::ExternPath) => ConfigView {
            extern_paths: c.extern_paths.push((parts[1], parts[2])),
            ..c
        },
        Some(ConfigKey::FieldAttribute) => ConfigView {
            field_attributes: c.field_attributes.push((parts[1], parts[2])),
            ..c
        },
        Some(ConfigKey::FileDescriptorSetPath) => ConfigView {
            file_descriptor_set_path: Some(parts[1]),
            ..c
        },
        Some(ConfigKey::IncludeFile) => ConfigView { include_file: Some(parts[1]), ..c },
        Some(ConfigKey::RetainEnumPrefix) => ConfigView { retain_enum_prefix: true, ..c },
        Some(ConfigKey::TypeAttribute) => ConfigView {
            type_attributes: c.type_attributes.push((parts[1], parts[2])),
            ..c
        },
    }
}

/// The configuration that the options `opts` describe, read in order.
pub open spec fn config_of(opts: Seq<Seq<char>>) -> ConfigView
    decreases opts.len(),
{
    if opts.len() == 0 {
        empty_config()
    } else {
        config_with(config_of(opts.drop_last()), opts.last())
    }
}

/// The options of `opts` that are not for the translator's configuration,
/// in their order.
pub open spec fn config_leftovers(opts: Seq<Seq<char>>) -> Seq<Seq<char>> {
    opts.filter(|opt: Seq<char>| !is_config_option(opt))
}

proof fn lemma_position_found(s: Seq<char>, c: char, from: int, k: int)
    requires
        0 <= from <= k <= s.len(),
        forall|j: int| from <= j < k ==> s[j] != c,
        k == s.len() || s[k] == c,
    ensures
        position(s, c, from) == k,
    decreases k - from,
{
    if from < k {
        lemma_position_found(s, c, from + 1, k);
    }
}

/// The first position at or after `from` where `c` stands in `s`.
fn find_char(s: &Vec<char>, c: char, from: usize) -> (k: usize)
    requires
        from <= s.len(),
    ensures
        k == position(s@, c, from as int),
        from <= k <= s.len(),
{
    let mut k = from;
    while k < s.len() && s[k] != c
        invariant
            from <= k <= s.len(),
            forall|j: int| from <= j < k ==> s@[j] != c,
        decreases s.len() - k,
    {
        k += 1;
    }
    proof {
        lemma_position_found(s@, c, from as int, k as int);
    }
    k
}

/// The characters of `s` from `from` up to `to`.
fn slice_of(s: &Vec<char>, from: usize, to: usize) -> (out: Vec<char>)
    requires
        from <= to <= s.len(),
    ensures
        out@ == s@.subrange(from as int, to as int),
{
    let mut out: Vec<char> = Vec::new();
    let mut i = from;
    while i < to
        invariant
            from <= i <= to <= s.len(),
            out@ == s@.subrange(from as int, i as int),
        decreases to - i,
    {
        out.push(s[i]);
        i += 1;
    }
    out
}

/// Cuts a raw option into its parts.
pub fn split_option(opt: &str) -> (parts: Vec<Vec<char>>)
    ensures
        texts(parts@) == option_parts(opt@),
        1 <= parts.len() <= 3,
{
    let s = chars_of(opt);
    let n = s.len();
    let mut parts: Vec<Vec<char>> = Vec::new();
    let i = find_char(&s, '=', 0);
    if i >= n {
        parts.push(s);
        assert(texts(parts@) == seq![opt@]);
    } else {
        let j = find_char(&s, '=', i + 1);
        let key = slice_of(&s, 0, i);
        if j >= n {
            let value = slice_of(&s, i + 1, n);
            parts.push(key);
            parts.push(value);
            assert(texts(parts@) == seq![opt@.take(i as int), opt@.skip(i + 1)]);
        } else {
            let subkey = slice_of(&s, i + 1, j);
            let value = slice_of(&s, j + 1, n);
            parts.push(key);
            parts.push(subkey);
            parts.push(value);
            assert(texts(parts@) == seq![
                opt@.take(i as int),
                opt@.subrange(i + 1, j as int),
                opt@.skip(j + 1),
            ]);
        }
    }
    parts
}

/// Looks the parts of an option up in the table of recognised options.
pub fn lookup_config_key(parts: &Vec<Vec<char>>) -> (key: Option<ConfigKey>)
    ensures
        key == config_key(texts(parts@)),
{
    if parts.len() == 1 {
        if parts[0].len() == 0 {
            Some(ConfigKey::Nothing)
        } else if chars_are(&parts[0], "compile_well_known_types") {
            Some(ConfigKey::CompileWellKnownTypes)
        } else if chars_are(&parts[0], "retain_enum_prefix") {
            Some(ConfigKey::RetainEnumPrefix)
        } else {
            None
        }
    } else if parts.len() == 2 {
        if chars_are(&parts[0], "btree_map") {
            Some(ConfigKey::BtreeMap)
        } else if chars_are(&parts[0], "bytes") {
            Some(ConfigKey::Bytes)
        } else if chars_are(&parts[0], "default_package_filename") {
            Some(ConfigKey::DefaultPackageFilename)
        } else if chars_are(&parts[0], "disable_comments") {
            Some(ConfigKey::DisableComments)
        } else if chars_are(&parts[0], "file_descriptor_set") {
            Some(ConfigKey::FileDescriptorSetPath)
        } else if chars_are(&parts[0], "include_file") {
            Some(ConfigKey::IncludeFile)
        } else {
            None
        }
    } else if parts.len() == 3 {
        if chars_are(&parts[0], "extern_path") {
            Some(ConfigKey::ExternPath)
        } else if chars_are(&parts[0], "field_attribute") {
            Some(ConfigKey::FieldAttribute)
        } else if chars_are(&parts[0], "type_attribute") {
            Some(ConfigKey::TypeAttribute)
        } else {
            None
        }
    } else {
        None
    }
}

impl Config {
    /// A configuration with nothing set.
    pub fn new() -> (config: Config)
        ensures
            config@ == empty_config(),
    {
        let config = Config {
            btree_map: Vec::new(),
            bytes: Vec::new(),
            disable_comments: Vec::new(),
            compile_well_known_types: false,
            retain_enum_prefix: false,
            default_package_filename: None,
            extern_paths: Vec::new(),
            field_attributes: Vec::new(),
            type_attributes: Vec::new(),
            file_descriptor_set_path: None,
            include_file: None,
        };
        assert(config.btree_map.deep_view() == Seq::<Seq<char>>::empty());
        assert(config.bytes.deep_view() == Seq::<Seq<char>>::empty());
        assert(config.disable_comments.deep_view() == Seq::<Seq<char>>::empty());
        assert(config.extern_paths.deep_view() == Seq::<(Seq<char>, Seq<char>)>::empty());
        assert(config.field_attributes.deep_view() == Seq::<(Seq<char>, Seq<char>)>::empty());
        assert(config.type_attributes.deep_view() == Seq::<(Seq<char>, Seq<char>)>::empty());
        config
    }

    /// Reads one option into the configuration. Returns whether the option
    /// was one of the configuration's; if not, nothing changes.
    pub fn apply(&mut self, opt: &str) -> (taken: bool)
        ensures
            taken == is_config_option(opt@),
            final(self)@ == config_with(old(self)@, opt@),
    {
        let parts = split_option(opt);
        let key = lookup_config_key(&parts);
        match key {
            None => {
                return false;
            },
            Some(ConfigKey::Nothing) => {},
            Some(ConfigKey::BtreeMap) => {
                push_text(&mut self.btree_map, &parts[1]);
            },
            Some(ConfigKey::Bytes) => {
                push_text(&mut self.bytes, &parts[1]);
            },
            Some(ConfigKey::CompileWellKnownTypes) => {
                self.compile_well_known_types = true;
            },
            Some(ConfigKey::DefaultPackageFilename) => {
                self.default_package_filename = Some(string_of(&parts[1]));
            },
            Some(ConfigKey::DisableComments) => {
                push_text(&mut self.disable_comments, &parts[1]);
            },
            Some(ConfigKey::ExternPath) => {
                push_pair(&mut self.extern_paths, &parts[1], &parts[2]);
            },
            Some(ConfigKey::FieldAttribute) => {
                push_pair(&mut self.field_attributes, &parts[1], &parts[2]);
            },
            Some(ConfigKey::FileDescriptorSetPath) => {
                self.file_descriptor_set_path = Some(string_of(&parts[1]));
            },
            Some(ConfigKey::IncludeFile) => {
                self.include_file = Some(string_of(&parts[1]));
            },
            Some(ConfigKey::RetainEnumPrefix) => {
                self.retain_enum_prefix = true;
            },
            Some(ConfigKey::TypeAttribute) => {
                push_pair(&mut self.type_attributes, &parts[1], &parts[2]);
            },
        }
        true
    }
}

/// Appends the text `chars` to a list of strings.
fn push_text(list: &mut Vec<String>, chars: &Vec<char>)
    ensures
        final(list).deep_view() == old(list).deep_view().push(chars@),
{
    let s = string_of(chars);
    list.push(s);
    assert(list.deep_view() == old(list).deep_view().push(chars@));
}

/// Appends the pair of `key` and `value` to a list of pairs.
fn push_pair(list: &mut Vec<(String, String)>, key: &Vec<char>, value: &Vec<char>)
    ensures
        final(list).deep_view() == old(list).deep_view().push((key@, value@)),
{
    let k = string_of(key);
    let v = string_of(value);
    list.push((k, v));
    assert(list.deep_view() == old(list).deep_view().push((key@, value@)));
}

/// Take a list of arguments, in the form of key=value, and returns the
/// leftovers arguments.
///
/// The configuration is the one that the recognised options describe, read
/// in order. The leftovers are the options that were not recognised: each
/// of them once, unchanged and in the order given.
pub fn config_from_opts(opts: Vec<String>) -> (ret: (Config, Vec<String>))
    ensures
        ret.0@ == config_of(opts.deep_view()),
        ret.1.deep_view() == config_leftovers(opts.deep_view()),
{
    let mut config = Config::new();
    let mut leftovers: Vec<String> = Vec::new();
    let ghost all = opts.deep_view();
    let mut i: usize = 0;
    proof {
        reveal(Seq::filter);
        assert(all.take(0) == Seq::<Seq<char>>::empty());
        assert(leftovers.deep_view() == Seq::<Seq<char>>::empty());
    }
    while i < opts.len()
        invariant
            i <= opts.len(),
            all == opts.deep_view(),
            config@ == config_of(all.take(i as int)),
            leftovers.deep_view() == config_leftovers(all.take(i as int)),
        decreases opts.len() - i,
    {
        let taken = config.apply(opts[i].as_str());
        proof {
            reveal(Seq::filter);
            assert(all.take(i + 1).drop_last() == all.take(i as int));
            assert(all.take(i + 1).last() == opts[i as int]@);
        }
        if !taken {
            let ghost before = leftovers.deep_view();
            leftovers.push(opts[i].clone());
            assert(leftovers.deep_view() == before.push(opts[i as int]@));
        }
        i += 1;
    }
    assert(all.take(opts.len() as int) == all);
    (config, leftovers)
}

} // verus!
