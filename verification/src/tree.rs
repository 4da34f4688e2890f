//! The tree of modules that mirrors the packages' dotted names, and the
//! source text that includes every generated file at its place in it.

use vstd::prelude::*;
use vstd::slice::slice_subrange;
use vstd::string::StringExecFns;
use crate::literal::{quote_str, string_literal};
use crate::text::{increasing, join, join_strings, lemma_insert_increasing, lemma_lex_irreflexive, lex_less, str_eq, str_less};

verus! {

/// A module of the tree: its submodules by name, and the package whose
/// generated file it includes, if any.
pub ghost struct Node {
    pub children: Seq<(Seq<char>, Node)>,
    pub name: Option<Seq<char>>,
}

/// A module without submodules that includes nothing.
pub open spec fn empty_node() -> Node {
    Node { children: Seq::empty(), name: None }
}

/// The first position at or after `from` whose module is not named before
/// `key`, or the number of modules where there is none.
pub open spec fn slot(kids: Seq<(Seq<char>, Node)>, key: Seq<char>, from: int) -> int
    decreases kids.len() - from,
{
    if from >= kids.len() {
        kids.len() as int
    } else if from >= 0 && !lex_less(kids[from].0, key) {
        from
    } else {
        slot(kids, key, from + 1)
    }
}

/// Whether `kids` has a module named `key` where one would stand.
pub open spec fn has_child(kids: Seq<(Seq<char>, Node)>, key: Seq<char>) -> bool {
    let i = slot(kids, key, 0);
    0 <= i < kids.len() && kids[i].0 == key
}

/// `kids` with an empty module named `key` put in, unless one is there.
pub open spec fn with_child(kids: Seq<(Seq<char>, Node)>, key: Seq<char>) -> Seq<(Seq<char>, Node)> {
    if has_child(kids, key) {
        kids
    } else {
        kids.insert(slot(kids, key, 0), (key, empty_node()))
    }
}

/// `node` after the package named `package` is put at the module path that
/// starts with `name` and goes on with `left`: the modules on the path are
/// made where they are missing, and the last one includes the package.
pub open spec fn added(node: Node, package: Seq<char>, name: Seq<char>, left: Seq<Seq<char>>) -> Node
    decreases left.len(),
{
    let kids = with_child(node.children, name);
    let i = slot(kids, name, 0);
    let child = kids[i].1;
    let grown = if left.len() == 0 {
        Node { children: child.children, name: Some(package) }
    } else {
        added(child, package, left[0], left.skip(1))
    };
    Node { children: kids.update(i, (name, grown)), name: node.name }
}

/// `node` after the package with the module path `package` is put in. The
/// empty path names no module and changes nothing.
pub open spec fn pushed(node: Node, package: Seq<Seq<char>>) -> Node {
    if package.len() == 0 {
        node
    } else {
        added(node, join(package, "."@), package[0], package.skip(1))
    }
}

/// The names of the modules `kids`.
pub open spec fn names_of(kids: Seq<(Seq<char>, Node)>) -> Seq<Seq<char>> {
    kids.map_values(|kid: (Seq<char>, Node)| kid.0)
}

/// Whether the modules of `kids` stand in strictly increasing order of
/// their names.
pub open spec fn ordered(kids: Seq<(Seq<char>, Node)>) -> bool {
    increasing(names_of(kids))
}

/// Whether the submodules of `node` are in order at every level.
pub open spec fn well_formed(node: Node) -> bool
    decreases node,
{
    &&& ordered(node.children)
    &&& forall|i: int| 0 <= i < node.children.len() ==> well_formed(#[trigger] node.children[i].1)
}

/// The statement that includes the generated file of a package, given the
/// package's name as a string literal. In a generated package the file lies
/// under the package's root and is compiled only with the package's feature.
pub open spec fn include_text(literal: Seq<char>, krate: bool) -> Seq<char> {
    if krate {
        "#[cfg(feature = "@ + literal + ")]\ninclude!(concat!(env!(\"CARGO_MANIFEST_DIR\"), \"/gen/\", "@
            + literal + ", \".rs\"));\n"@
    } else {
        "include!(concat!("@ + literal + ", \".rs\"));\n"@
    }
}

/// The declaration of the module `name` with the content `body`.
pub open spec fn module_text(name: Seq<char>, body: Seq<char>) -> Seq<char> {
    "pub mod "@ + name + " {\n"@ + body + "}\n"@
}

/// The source text of `node`: the inclusion of its own package, if it has
/// one, and then its submodules in their order, each with its own text.
pub open spec fn render_text(node: Node, krate: bool) -> Seq<char>
    decreases node,
{
    let own = match node.name {
        Some(name) => include_text(string_literal(name), krate),
        None => Seq::empty(),
    };
    own + render_modules(node.children, krate)
}

/// The source text of the modules `kids`, one after the other.
pub open spec fn render_modules(kids: Seq<(Seq<char>, Node)>, krate: bool) -> Seq<char>
    decreases kids,
{
    if kids.len() == 0 {
        Seq::empty()
    } else {
        render_modules(kids.drop_last(), krate) + module_text(
            kids.last().0,
            render_text(kids.last().1, krate),
        )
    }
}

/// A submodule with its name.
struct Submod {
    name: String,
    module: Mod,
}

/// Helper structure to build a module tree, tagging each node with the
/// potentially included package file.
pub struct Mod {
    /// Submodule list contained by this module, in the order of their
    /// names. Keyed by module name, not package name.
    submods: Vec<Submod>,
    /// The package name to include, if any.
    name: Option<String>,
}

/// What a list of submodules holds.
spec fn kids_of(subs: Seq<Submod>) -> Seq<(Seq<char>, Node)>
    decreases subs,
{
    Seq::new(
        subs.len(),
        |i: int|
            if 0 <= i < subs.len() {
                (subs[i].name@, subs[i].module.node())
            } else {
                (Seq::empty(), empty_node())
            },
    )
}

impl Mod {
    /// What the tree holds.
    spec fn node(&self) -> Node
        decreases self,
    {
        Node {
            children: kids_of(self.submods@),
            name: match self.name {
                Some(n) => Some(n@),
                None => None,
            },
        }
    }
}

impl View for Mod {
    type V = Node;

    closed spec fn view(&self) -> Node {
        self.node()
    }
}

impl Default for Mod {
    /// The empty tree.
    fn default() -> (root: Mod)
        ensures
            root@ == empty_node(),
    {
        Mod::new()
    }
}

proof fn lemma_slot_found(kids: Seq<(Seq<char>, Node)>, key: Seq<char>, from: int, k: int)
    requires
        0 <= from <= k <= kids.len(),
        forall|j: int| from <= j < k ==> lex_less(kids[j].0, key),
        k == kids.len() || !lex_less(kids[k].0, key),
    ensures
        slot(kids, key, from) == k,
    decreases k - from,
{
    if from < k {
        lemma_slot_found(kids, key, from + 1, k);
    }
}

proof fn lemma_slot_bounds(kids: Seq<(Seq<char>, Node)>, key: Seq<char>, from: int)
    requires
        0 <= from <= kids.len(),
    ensures
        from <= slot(kids, key, from) <= kids.len(),
        forall|j: int| from <= j < slot(kids, key, from) ==> lex_less(kids[j].0, key),
        slot(kids, key, from) < kids.len() ==> !lex_less(kids[slot(kids, key, from)].0, key),
    decreases kids.len() - from,
{
    if from < kids.len() && lex_less(kids[from].0, key) {
        lemma_slot_bounds(kids, key, from + 1);
    }
}

/// After `with_child`, the module named `key` stands at the slot of `key`.
proof fn lemma_with_child(kids: Seq<(Seq<char>, Node)>, key: Seq<char>)
    ensures
        has_child(with_child(kids, key), key),
        slot(with_child(kids, key), key, 0) == slot(kids, key, 0),
        with_child(with_child(kids, key), key) == with_child(kids, key),
{
    lemma_slot_bounds(kids, key, 0);
    if !has_child(kids, key) {
        let i = slot(kids, key, 0);
        let grown = kids.insert(i, (key, empty_node()));
        lemma_lex_irreflexive(key);
        assert forall|j: int| 0 <= j < i implies lex_less(grown[j].0, key) by {
            assert(grown[j] == kids[j]);
        }
        assert(grown[i].0 == key);
        lemma_slot_found(grown, key, 0, i);
    }
}

impl Mod {
    /// The empty tree.
    pub fn new() -> (root: Mod)
        ensures
            root@ == empty_node(),
    {
        let root = Mod { submods: Vec::new(), name: None };
        assert(kids_of(root.submods@) == Seq::<(Seq<char>, Node)>::empty());
        root
    }

    /// Finds where the submodule named `name` stands or would stand.
    fn find(&self, name: &str) -> (at: (usize, bool))
        ensures
            at.0 == slot(self@.children, name@, 0),
            at.1 == has_child(self@.children, name@),
            at.0 <= self.submods.len(),
    {
        let ghost kids = self@.children;
        let mut i: usize = 0;
        while i < self.submods.len() && str_less(self.submods[i].name.as_str(), name)
            invariant
                i <= self.submods.len(),
                kids == self@.children,
                kids.len() == self.submods.len(),
                forall|j: int| 0 <= j < i ==> lex_less(kids[j].0, name@),
            decreases self.submods.len() - i,
        {
            assert(kids[i as int].0 == self.submods[i as int].name@);
            i += 1;
        }
        proof {
            if i < self.submods.len() {
                assert(kids[i as int].0 == self.submods[i as int].name@);
            }
            lemma_slot_found(kids, name@, 0, i as int);
        }
        let found = i < self.submods.len() && str_eq(self.submods[i].name.as_str(), name);
        (i, found)
    }

    /// Push a package to include in the module.
    ///
    /// The tree becomes the one that holds the package at its module path;
    /// the submodules stay in the order of their names.
    pub fn push(&mut self, package: &[String])
        ensures
            final(self)@ == pushed(old(self)@, package.deep_view()),
            well_formed(old(self)@) ==> well_formed(final(self)@),
    {
        if package.len() > 0 {
            let mut owned: Vec<String> = Vec::new();
            let mut i: usize = 0;
            while i < package.len()
                invariant
                    i <= package.len(),
                    owned.deep_view() == package.deep_view().take(i as int),
                decreases package.len() - i,
            {
                owned.push(package[i].clone());
                assert(owned.deep_view() == package.deep_view().take(i as int).push(package[i as int]@));
                assert(package.deep_view().take(i + 1) == package.deep_view().take(i as int).push(
                    package[i as int]@,
                ));
                i += 1;
            }
            assert(package.deep_view().take(package.len() as int) == package.deep_view());
            let left = slice_subrange(package, 1, package.len());
            assert(left.deep_view() == package.deep_view().skip(1));
            assert(package.deep_view()[0] == package[0]@);
            self.add(owned, package[0].as_str(), left);
        }
    }

    /// Add a package, with the current part where we are.
    /// - `name` is the current module name we are in
    /// - `left` is what's left of the package, i.e. submodules after `name`
    ///   leading up to the leaf module with the actual file import
    pub fn add(&mut self, package: Vec<String>, name: &str, left: &[String])
        ensures
            final(self)@ == added(old(self)@, join(package.deep_view(), "."@), name@, left.deep_view()),
            well_formed(old(self)@) ==> well_formed(final(self)@),
        decreases left.len(),
    {
        let ghost before = self@;
        let ghost leaf = join(package.deep_view(), "."@);
        let ghost kids = with_child(before.children, name@);
        let (i, found) = self.find(name);
        proof {
            lemma_with_child(before.children, name@);
            lemma_slot_bounds(before.children, name@, 0);
        }
        if !found {
            let fresh = Mod::new();
            self.submods.insert(i, Submod { name: String::from_str(name), module: fresh });
        }
        assert(self@.children == kids);
        assert(self@.name == before.name);
        let ghost child = kids[i as int].1;
        assert(self.submods[i as int].module@ == child);
        assert(self.submods[i as int].name@ == name@);
        let ghost subs = self.submods@;
        let target = &mut self.submods[i];
        if left.len() == 0 {
            target.module.name = Some(join_strings(&package, "."));
            assert(left.deep_view().len() == 0);
        } else {
            let rest = slice_subrange(left, 1, left.len());
            assert(rest.deep_view() == left.deep_view().skip(1));
            assert(left.deep_view()[0] == left[0]@);
            target.module.add(package, left[0].as_str(), rest);
        }
        proof {
            let grown = self.submods[i as int].module@;
            assert(self.submods@.len() == subs.len());
            assert(forall|j: int| 0 <= j < subs.len() && j != i ==> self.submods@[j] == subs[j]);
            assert(self@.children == kids.update(i as int, (name@, grown)));
            if well_formed(before) {
                lemma_added_well_formed(before, leaf, name@, left.deep_view());
            }
        }
    }
}

/// Adding a package keeps the submodules in order at every level.
pub proof fn lemma_added_well_formed(node: Node, package: Seq<char>, name: Seq<char>, left: Seq<Seq<char>>)
    requires
        well_formed(node),
    ensures
        well_formed(added(node, package, name, left)),
    decreases left.len(),
{
    let old_kids = node.children;
    let kids = with_child(old_kids, name);
    let i = slot(kids, name, 0);
    lemma_with_child(old_kids, name);
    lemma_slot_bounds(old_kids, name, 0);
    let at = slot(old_kids, name, 0);
    // The list with the module put in is still in order, and each of its
    // modules is well formed.
    assert(ordered(kids) && forall|j: int| 0 <= j < kids.len() ==> well_formed(#[trigger] kids[j].1)) by {
        if !has_child(old_kids, name) {
            let names = names_of(old_kids);
            assert(names_of(kids) == names.insert(at, name));
            assert forall|j: int| 0 <= j < at implies lex_less(names[j], name) by {
                assert(names[j] == old_kids[j].0);
            }
            if at < names.len() {
                assert(names[at] == old_kids[at].0);
            }
            lemma_insert_increasing(names, at, name);
            assert forall|j: int| 0 <= j < kids.len() implies well_formed(#[trigger] kids[j].1) by {
                if j < at {
                    assert(kids[j] == old_kids[j]);
                    assert(well_formed(old_kids[j].1));
                } else if j > at {
                    assert(kids[j] == old_kids[j - 1]);
                    assert(well_formed(old_kids[j - 1].1));
                } else {
                    assert(kids[j].1.children.len() == 0);
                }
            }
        } else {
            assert forall|j: int| 0 <= j < kids.len() implies well_formed(#[trigger] kids[j].1) by {
                assert(well_formed(old_kids[j].1));
            }
        }
    }
    let child = kids[i].1;
    assert(well_formed(child));
    let grown = if left.len() == 0 {
        Node { children: child.children, name: Some(package) }
    } else {
        added(child, package, left[0], left.skip(1))
    };
    if left.len() > 0 {
        lemma_added_well_formed(child, package, left[0], left.skip(1));
    } else {
        assert forall|j: int| 0 <= j < grown.children.len() implies well_formed(
            #[trigger] grown.children[j].1,
        ) by {
            assert(well_formed(child.children[j].1));
        }
    }
    let out = kids.update(i, (name, grown));
    assert(names_of(out) == names_of(kids));
    assert forall|j: int| 0 <= j < out.len() implies well_formed(#[trigger] out[j].1) by {
        if j != i {
            assert(well_formed(kids[j].1));
        }
    }
}

/// The modules' names decide where a name's slot is.
proof fn lemma_slot_same_names(a: Seq<(Seq<char>, Node)>, b: Seq<(Seq<char>, Node)>, key: Seq<char>, from: int)
    requires
        a.len() == b.len(),
        forall|j: int| 0 <= j < a.len() ==> a[j].0 == b[j].0,
        0 <= from,
    ensures
        slot(a, key, from) == slot(b, key, from),
    decreases a.len() - from,
{
    if from < a.len() {
        assert(a[from].0 == b[from].0);
        if lex_less(a[from].0, key) {
            lemma_slot_same_names(a, b, key, from + 1);
        }
    }
}

proof fn lemma_added_idempotent(node: Node, package: Seq<char>, name: Seq<char>, left: Seq<Seq<char>>)
    ensures
        added(added(node, package, name, left), package, name, left) == added(node, package, name, left),
    decreases left.len(),
{
    let kids = with_child(node.children, name);
    let i = slot(kids, name, 0);
    lemma_with_child(node.children, name);
    let child = kids[i].1;
    let grown = if left.len() == 0 {
        Node { children: child.children, name: Some(package) }
    } else {
        added(child, package, left[0], left.skip(1))
    };
    let once = added(node, package, name, left);
    let out = kids.update(i, (name, grown));
    assert(once.children == out);
    lemma_slot_same_names(out, kids, name, 0);
    assert(has_child(out, name));
    assert(with_child(out, name) == out);
    if left.len() > 0 {
        lemma_added_idempotent(child, package, left[0], left.skip(1));
    }
    assert(out.update(i, (name, grown)) == out);
}

/// Putting a package into the tree a second time changes nothing: the tree,
/// and with it the text it renders to, is the one after the first time.
pub proof fn lemma_push_idempotent(node: Node, package: Seq<Seq<char>>, krate: bool)
    ensures
        pushed(pushed(node, package), package) == pushed(node, package),
        render_text(pushed(pushed(node, package), package), krate) == render_text(
            pushed(node, package),
            krate,
        ),
{
    if package.len() > 0 {
        lemma_added_idempotent(node, join(package, "."@), package[0], package.skip(1));
    }
}

/// Writes the statement that includes a package's generated file, given
/// the package's name as a string literal.
pub fn include_stmt(literal: &str, krate: bool) -> (out: String)
    ensures
        out@ == include_text(literal@, krate),
{
    let mut out = String::new();
    if krate {
        out.append("#[cfg(feature = ");
        out.append(literal);
        out.append(")]\ninclude!(concat!(env!(\"CARGO_MANIFEST_DIR\"), \"/gen/\", ");
        out.append(literal);
        out.append(", \".rs\"));\n");
    } else {
        out.append("include!(concat!(");
        out.append(literal);
        out.append(", \".rs\"));\n");
    }
    out
}

/// Writes the declaration of the module `name` with the content `body`.
pub fn module_decl(name: &str, body: &str) -> (out: String)
    ensures
        out@ == module_text(name@, body@),
{
    let mut out = String::from_str("pub mod ");
    out.append(name);
    out.append(" {\n");
    out.append(body);
    out.append("}\n");
    out
}

impl Mod {
    /// Renders the tree as source text: for each module the inclusion of
    /// its package's file, if it has one, followed by its submodules in the
    /// order of their names.
    pub fn render(&self, krate: bool) -> (out: String)
        ensures
            out@ == render_text(self@, krate),
        decreases self,
    {
        let mut out = match &self.name {
            Some(name) => {
                let literal = quote_str(name.as_str());
                include_stmt(literal.as_str(), krate)
            },
            None => String::new(),
        };
        let ghost own = out@;
        let ghost kids = self@.children;
        let mut i: usize = 0;
        assert(kids.take(0) == Seq::<(Seq<char>, Node)>::empty());
        while i < self.submods.len()
            invariant
                i <= self.submods.len(),
                kids == self@.children,
                kids.len() == self.submods.len(),
                out@ == own + render_modules(kids.take(i as int), krate),
            decreases self.submods.len() - i,
        {
            let sub = &self.submods[i];
            let body = sub.module.render(krate);
            let decl = module_decl(sub.name.as_str(), body.as_str());
            proof {
                assert(kids.take(i + 1).drop_last() == kids.take(i as int));
                assert(kids.take(i + 1).last() == (sub.name@, sub.module@));
            }
            out.append(decl.as_str());
            i += 1;
        }
        assert(kids.take(kids.len() as int) == kids);
        out
    }
}

/// Adding a package below the module `name` leaves what the tree itself
/// includes, and every submodule of another name, as they were.
pub proof fn lemma_added_elsewhere(node: Node, package: Seq<char>, name: Seq<char>, left: Seq<Seq<char>>)
    ensures
        added(node, package, name, left).name == node.name,
        forall|i: int|
            0 <= i < node.children.len() && node.children[i].0 != name ==> added(
                node,
                package,
                name,
                left,
            ).children.contains(#[trigger] node.children[i]),
{
    let kids = with_child(node.children, name);
    let at = slot(kids, name, 0);
    lemma_with_child(node.children, name);
    lemma_slot_bounds(node.children, name, 0);
    let out = added(node, package, name, left).children;
    assert forall|i: int| 0 <= i < node.children.len() && node.children[i].0 != name implies out.contains(
        #[trigger] node.children[i],
    ) by {
        let k = if has_child(node.children, name) || i < slot(node.children, name, 0) {
            i
        } else {
            i + 1
        };
        assert(kids[k] == node.children[i]);
        assert(k != at);
        assert(out[k] == node.children[i]);
    }
}

/// Whether every package that `node` includes, at any depth, is named by
/// the path of its module: the segments of `prefix`, which lead to `node`,
/// and then the names of the modules on the way, joined by dots.
pub open spec fn named_by_path(node: Node, prefix: Seq<Seq<char>>) -> bool
    decreases node,
{
    &&& node.name matches Some(name) ==> name == join(prefix, "."@)
    &&& forall|i: int|
        0 <= i < node.children.len() ==> named_by_path(
            #[trigger] node.children[i].1,
            prefix.push(node.children[i].0),
        )
}

proof fn lemma_added_named(node: Node, prefix: Seq<Seq<char>>, name: Seq<char>, left: Seq<Seq<char>>)
    requires
        named_by_path(node, prefix),
    ensures
        named_by_path(added(node, join(prefix.push(name) + left, "."@), name, left), prefix),
    decreases left.len(),
{
    let package = join(prefix.push(name) + left, "."@);
    let old_kids = node.children;
    let kids = with_child(old_kids, name);
    let at = slot(kids, name, 0);
    lemma_with_child(old_kids, name);
    lemma_slot_bounds(old_kids, name, 0);
    let spot = slot(old_kids, name, 0);
    assert forall|j: int| 0 <= j < kids.len() implies named_by_path(
        #[trigger] kids[j].1,
        prefix.push(kids[j].0),
    ) by {
        if has_child(old_kids, name) {
            assert(named_by_path(old_kids[j].1, prefix.push(old_kids[j].0)));
        } else if j < spot {
            assert(kids[j] == old_kids[j]);
            assert(named_by_path(old_kids[j].1, prefix.push(old_kids[j].0)));
        } else if j > spot {
            assert(kids[j] == old_kids[j - 1]);
            assert(named_by_path(old_kids[j - 1].1, prefix.push(old_kids[j - 1].0)));
        } else {
            assert(kids[j].1 == empty_node());
        }
    }
    let child = kids[at].1;
    assert(named_by_path(child, prefix.push(kids[at].0)));
    let below = prefix.push(name);
    let grown = if left.len() == 0 {
        Node { children: child.children, name: Some(package) }
    } else {
        added(child, package, left[0], left.skip(1))
    };
    if left.len() == 0 {
        assert(below + left == below);
        assert forall|j: int| 0 <= j < grown.children.len() implies named_by_path(
            #[trigger] grown.children[j].1,
            below.push(grown.children[j].0),
        ) by {
            assert(named_by_path(child.children[j].1, below.push(child.children[j].0)));
        }
    } else {
        assert(below.push(left[0]) + left.skip(1) == below + left);
        lemma_added_named(child, below, left[0], left.skip(1));
    }
    let out = kids.update(at, (name, grown));
    assert forall|j: int| 0 <= j < out.len() implies named_by_path(
        #[trigger] out[j].1,
        prefix.push(out[j].0),
    ) by {
        if j != at {
            assert(named_by_path(kids[j].1, prefix.push(kids[j].0)));
        }
    }
}

/// In a tree that is built by putting packages in, every package is
/// included at the module path that its name spells.
pub proof fn lemma_pushed_named(node: Node, package: Seq<Seq<char>>)
    requires
        named_by_path(node, Seq::empty()),
    ensures
        named_by_path(pushed(node, package), Seq::empty()),
{
    if package.len() > 0 {
        let root = Seq::<Seq<char>>::empty();
        assert(root.push(package[0]) + package.skip(1) == package);
        lemma_added_named(node, root, package[0], package.skip(1));
    }
}

} // verus!
