//! Dependencies between packages.
//!
//! One package can be spread over several schema files, so what a package
//! depends on is gathered from all of its files.

use vstd::prelude::*;
use vstd::string::StringExecFns;
use crate::text::{increasing, lemma_insert_increasing, lemma_lex_irreflexive, lemma_lex_total, lex_less, str_eq, str_less};

verus! {

/// What the generator reads of a parsed schema file.
pub struct FileDescriptor {
    /// The file's name.
    pub name: String,
    /// The package that the file declares.
    pub package: String,
    /// The names of the files that this one imports.
    pub dependency: Vec<String>,
}

/// What a [`FileDescriptor`] holds, as plain sequences.
pub ghost struct FileView {
    pub name: Seq<char>,
    pub package: Seq<char>,
    pub dependency: Seq<Seq<char>>,
}

impl View for FileDescriptor {
    type V = FileView;

    open spec fn view(&self) -> FileView {
        FileView {
            name: self.name@,
            package: self.package@,
            dependency: self.dependency.deep_view(),
        }
    }
}

impl DeepView for FileDescriptor {
    type V = FileView;

    open spec fn deep_view(&self) -> FileView {
        self@
    }
}

/// The package that owns the file named `name`, if the file is known. Of
/// several files of one name the last one counts.
pub open spec fn owner(files: Seq<FileView>, name: Seq<char>) -> Option<Seq<char>>
    decreases files.len(),
{
    if files.len() == 0 {
        None
    } else if files.last().name == name {
        Some(files.last().package)
    } else {
        owner(files.drop_last(), name)
    }
}

/// Whether the first `upto` imports of the file at `at` make its package
/// depend on `dep`: one of them names a known file of the package `dep`,
/// and `dep` is not the file's own package.
pub open spec fn imports(files: Seq<FileView>, at: int, upto: int, dep: Seq<char>) -> bool {
    &&& dep != files[at].package
    &&& exists|k: int| 0 <= k < upto && k < files[at].dependency.len() && owner(
        files,
        #[trigger] files[at].dependency[k],
    ) == Some(dep)
}

/// Whether the package `pkg` depends on `dep` by one of the first `upto`
/// files.
pub open spec fn depends(files: Seq<FileView>, upto: int, pkg: Seq<char>, dep: Seq<char>) -> bool {
    exists|i: int| 0 <= i < upto && i < files.len() && #[trigger] files[i].package == pkg && imports(
        files,
        i,
        files[i].dependency.len() as int,
        dep,
    )
}

/// Whether one of the first `upto` files declares the package `pkg`.
pub open spec fn declares(files: Seq<FileView>, upto: int, pkg: Seq<char>) -> bool {
    exists|i: int| 0 <= i < upto && i < files.len() && #[trigger] files[i].package == pkg
}

/// The dependency graph of `files`: each package that a file declares, with
/// the set of the other packages that its files import from.
pub open spec fn graph_of(files: Seq<FileView>) -> Map<Seq<char>, Set<Seq<char>>> {
    Map::new(
        |pkg: Seq<char>| declares(files, files.len() as int, pkg),
        |pkg: Seq<char>| Set::new(|dep: Seq<char>| depends(files, files.len() as int, pkg, dep)),
    )
}

/// The first components of `list`.
pub open spec fn keys(list: Seq<(Seq<char>, Seq<Seq<char>>)>) -> Seq<Seq<char>> {
    list.map_values(|e: (Seq<char>, Seq<Seq<char>>)| e.0)
}

/// Whether `list` writes out the graph `graph`: its packages in increasing
/// order, each with what it depends on in increasing order.
pub open spec fn lists(list: Seq<(Seq<char>, Seq<Seq<char>>)>, graph: Map<Seq<char>, Set<Seq<char>>>) -> bool {
    &&& increasing(keys(list))
    &&& forall|pkg: Seq<char>| graph.dom().contains(pkg) <==> keys(list).contains(pkg)
    &&& forall|i: int| 0 <= i < list.len() ==> increasing(#[trigger] list[i].1)
    &&& forall|i: int, dep: Seq<char>|
        0 <= i < list.len() ==> (graph[list[i].0].contains(dep) <==> (#[trigger] list[i].1.contains(dep)))
}

/// Two increasing lists of the same strings are the same list.
pub proof fn lemma_increasing_unique(a: Seq<Seq<char>>, b: Seq<Seq<char>>)
    requires
        increasing(a),
        increasing(b),
        forall|x: Seq<char>| a.contains(x) <==> b.contains(x),
    ensures
        a == b,
    decreases a.len(),
{
    if a.len() == 0 {
        if b.len() > 0 {
            assert(b.contains(b[0]));
        }
        assert(a =~= b);
    } else {
        let top = a.last();
        assert(a.contains(top));
        assert(b.contains(top));
        let k = choose|k: int| 0 <= k < b.len() && b[k] == top;
        assert(b.contains(b.last()));
        let m = choose|m: int| 0 <= m < a.len() && a[m] == b.last();
        lemma_lex_total(top, b.last());
        if k < b.len() - 1 {
            assert(lex_less(b[k], b[b.len() - 1]));
            if m < a.len() - 1 {
                assert(lex_less(a[m], a[a.len() - 1]));
            }
        }
        assert(b.last() == top);
        let a0 = a.drop_last();
        let b0 = b.drop_last();
        assert forall|x: Seq<char>| a0.contains(x) <==> b0.contains(x) by {
            lemma_lex_irreflexive(top);
            if a0.contains(x) {
                let i = choose|i: int| 0 <= i < a0.len() && a0[i] == x;
                assert(a[i] == x);
                assert(lex_less(a[i], a[a.len() - 1]));
                assert(a.contains(x));
                let j = choose|j: int| 0 <= j < b.len() && b[j] == x;
                assert(b0[j] == x);
            }
            if b0.contains(x) {
                let i = choose|i: int| 0 <= i < b0.len() && b0[i] == x;
                assert(b[i] == x);
                assert(lex_less(b[i], b[b.len() - 1]));
                assert(b.contains(x));
                let j = choose|j: int| 0 <= j < a.len() && a[j] == x;
                assert(a0[j] == x);
            }
        }
        lemma_increasing_unique(a0, b0);
        assert(a =~= a0.push(top));
        assert(b =~= b0.push(top));
    }
}

/// A graph is written out in one way only.
pub proof fn lemma_listing_unique(
    a: Seq<(Seq<char>, Seq<Seq<char>>)>,
    b: Seq<(Seq<char>, Seq<Seq<char>>)>,
    graph: Map<Seq<char>, Set<Seq<char>>>,
)
    requires
        lists(a, graph),
        lists(b, graph),
    ensures
        a == b,
{
    lemma_increasing_unique(keys(a), keys(b));
    assert(keys(a).len() == a.len());
    assert(keys(b).len() == b.len());
    assert forall|i: int| 0 <= i < a.len() implies a[i] == b[i] by {
        assert(keys(a)[i] == keys(b)[i]);
        assert forall|x: Seq<char>| a[i].1.contains(x) <==> b[i].1.contains(x) by {
            assert(graph[a[i].0].contains(x) <==> a[i].1.contains(x));
            assert(graph[b[i].0].contains(x) <==> b[i].1.contains(x));
        }
        lemma_increasing_unique(a[i].1, b[i].1);
    }
    assert(a =~= b);
}

/// The one list that writes out `graph`.
pub open spec fn listing(graph: Map<Seq<char>, Set<Seq<char>>>) -> Seq<(Seq<char>, Seq<Seq<char>>)> {
    choose|list: Seq<(Seq<char>, Seq<Seq<char>>)>| lists(list, graph)
}

/// No package depends on itself, whatever the files import.
pub proof fn lemma_no_self_loops(files: Seq<FileView>, pkg: Seq<char>)
    ensures
        graph_of(files).dom().contains(pkg) ==> !graph_of(files)[pkg].contains(pkg),
{
}

/// A package depends on what any of its files imports: the files of one
/// package add up.
pub proof fn lemma_files_add_up(files: Seq<FileView>, at: int, dep: Seq<char>)
    requires
        0 <= at < files.len(),
        imports(files, at, files[at].dependency.len() as int, dep),
    ensures
        graph_of(files).dom().contains(files[at].package),
        graph_of(files)[files[at].package].contains(dep),
{
    assert(declares(files, files.len() as int, files[at].package));
    assert(depends(files, files.len() as int, files[at].package, dep));
}

proof fn lemma_declares_step(files: Seq<FileView>, i: int, pkg: Seq<char>)
    requires
        0 <= i < files.len(),
    ensures
        declares(files, i + 1, pkg) <==> declares(files, i, pkg) || files[i].package == pkg,
{
    if declares(files, i + 1, pkg) {
        let k = choose|k: int| 0 <= k < i + 1 && k < files.len() && #[trigger] files[k].package == pkg;
        if k < i {
            assert(declares(files, i, pkg));
        }
    }
    if declares(files, i, pkg) {
        let k = choose|k: int| 0 <= k < i && k < files.len() && #[trigger] files[k].package == pkg;
        assert(0 <= k < i + 1 && files[k].package == pkg);
    }
    if files[i].package == pkg {
        assert(declares(files, i + 1, pkg));
    }
}

proof fn lemma_depends_step(files: Seq<FileView>, i: int, pkg: Seq<char>, dep: Seq<char>)
    requires
        0 <= i < files.len(),
    ensures
        depends(files, i + 1, pkg, dep) <==> depends(files, i, pkg, dep) || (files[i].package == pkg
            && imports(files, i, files[i].dependency.len() as int, dep)),
{
    if depends(files, i + 1, pkg, dep) {
        let k = choose|k: int|
            0 <= k < i + 1 && k < files.len() && #[trigger] files[k].package == pkg && imports(
                files,
                k,
                files[k].dependency.len() as int,
                dep,
            );
        if k < i {
            assert(depends(files, i, pkg, dep));
        }
    }
    if depends(files, i, pkg, dep) {
        let k = choose|k: int|
            0 <= k < i && k < files.len() && #[trigger] files[k].package == pkg && imports(
                files,
                k,
                files[k].dependency.len() as int,
                dep,
            );
        assert(0 <= k < i + 1 && files[k].package == pkg);
    }
    if files[i].package == pkg && imports(files, i, files[i].dependency.len() as int, dep) {
        assert(depends(files, i + 1, pkg, dep));
    }
}

proof fn lemma_imports_step(files: Seq<FileView>, i: int, j: int, dep: Seq<char>)
    requires
        0 <= i < files.len(),
        0 <= j < files[i].dependency.len(),
    ensures
        imports(files, i, j + 1, dep) <==> imports(files, i, j, dep) || (dep != files[i].package && owner(
            files,
            files[i].dependency[j],
        ) == Some(dep)),
{
    let d = files[i].dependency;
    if imports(files, i, j + 1, dep) {
        let k = choose|k: int| 0 <= k < j + 1 && k < d.len() && owner(files, #[trigger] d[k]) == Some(dep);
        if k < j {
            assert(imports(files, i, j, dep));
        }
    }
    if imports(files, i, j, dep) {
        let k = choose|k: int| 0 <= k < j && k < d.len() && owner(files, #[trigger] d[k]) == Some(dep);
        assert(0 <= k < j + 1 && owner(files, d[k]) == Some(dep));
    }
    if dep != files[i].package && owner(files, d[j]) == Some(dep) {
        assert(imports(files, i, j + 1, dep));
    }
}

/// Finds where `name` stands or would stand in a list in increasing order.
fn find_name(list: &Vec<String>, name: &str) -> (at: (usize, bool))
    ensures
        at.0 <= list.len(),
        forall|j: int| 0 <= j < at.0 ==> lex_less(list[j]@, name@),
        at.0 < list.len() ==> !lex_less(list[at.0 as int]@, name@),
        at.1 == (at.0 < list.len() && list[at.0 as int]@ == name@),
{
    let mut i: usize = 0;
    while i < list.len() && str_less(list[i].as_str(), name)
        invariant
            i <= list.len(),
            forall|j: int| 0 <= j < i ==> lex_less(list[j]@, name@),
        decreases list.len() - i,
    {
        i += 1;
    }
    let found = i < list.len() && str_eq(list[i].as_str(), name);
    (i, found)
}

/// Puts `name` into a list in increasing order, unless it is there.
fn insert_name(list: &mut Vec<String>, name: &str)
    requires
        increasing(old(list).deep_view()),
    ensures
        increasing(final(list).deep_view()),
        forall|x: Seq<char>|
            final(list).deep_view().contains(x) <==> old(list).deep_view().contains(x) || x == name@,
{
    let ghost before = list.deep_view();
    let (i, found) = find_name(list, name);
    if found {
        assert(before[i as int] == name@);
        assert(before.contains(name@));
    } else {
        list.insert(i, String::from_str(name));
        proof {
            let after = list.deep_view();
            assert(after == before.insert(i as int, name@));
            lemma_insert_increasing(before, i as int, name@);
            assert forall|x: Seq<char>| after.contains(x) <==> before.contains(x) || x == name@ by {
                if after.contains(x) {
                    let k = choose|k: int| 0 <= k < after.len() && after[k] == x;
                    if k < i {
                        assert(before[k] == x);
                    } else if k > i {
                        assert(before[k - 1] == x);
                    }
                }
                if before.contains(x) {
                    let k = choose|k: int| 0 <= k < before.len() && before[k] == x;
                    if k < i {
                        assert(after[k] == x);
                    } else {
                        assert(after[k + 1] == x);
                    }
                }
                if x == name@ {
                    assert(after[i as int] == x);
                }
            }
        }
    }
}

/// The dependencies between packages, written out: the packages in
/// increasing order, each with the packages it depends on in increasing
/// order.
pub struct DependencyGraph {
    pub entries: Vec<(String, Vec<String>)>,
}

impl View for DependencyGraph {
    type V = Seq<(Seq<char>, Seq<Seq<char>>)>;

    open spec fn view(&self) -> Seq<(Seq<char>, Seq<Seq<char>>)> {
        self.entries.deep_view()
    }
}

/// The number of the last of the first `upto` files that is named `name`.
fn owner_of(files: &[FileDescriptor], name: &str) -> (at: Option<usize>)
    ensures
        match at {
            Some(k) => k < files.len() && owner(files.deep_view(), name@) == Some(files[k as int].package@),
            None => owner(files.deep_view(), name@) is None,
        },
{
    let ghost all = files.deep_view();
    let mut i = files.len();
    assert(all.take(i as int) == all);
    while i > 0
        invariant
            i <= files.len(),
            all == files.deep_view(),
            owner(all, name@) == owner(all.take(i as int), name@),
        decreases i,
    {
        proof {
            assert(all.take(i as int).last() == files[i - 1]@);
            assert(all.take(i as int).drop_last() == all.take(i - 1));
        }
        if str_eq(files[i - 1].name.as_str(), name) {
            return Some(i - 1);
        }
        i -= 1;
    }
    None
}

impl DependencyGraph {
    /// The graph without packages.
    pub fn new() -> (graph: DependencyGraph)
        ensures
            graph@.len() == 0,
    {
        DependencyGraph { entries: Vec::new() }
    }

    /// Finds the entry of the package `pkg`, and makes one without
    /// dependencies where there is none. Returns the entry's position.
    fn entry(&mut self, pkg: &str) -> (at: usize)
        requires
            increasing(keys(old(self)@)),
        ensures
            at <= old(self)@.len(),
            at < final(self)@.len(),
            final(self)@[at as int].0 == pkg@,
            increasing(keys(final(self)@)),
            keys(old(self)@).contains(pkg@) ==> final(self)@ == old(self)@,
            !keys(old(self)@).contains(pkg@) ==> final(self)@ == old(self)@.insert(
                at as int,
                (pkg@, Seq::empty()),
            ),
    {
        let ghost before = self@;
        let ghost names = keys(before);
        let mut i: usize = 0;
        while i < self.entries.len() && str_less(self.entries[i].0.as_str(), pkg)
            invariant
                i <= self.entries.len(),
                self@ == before,
                forall|j: int| 0 <= j < i ==> lex_less(before[j].0, pkg@),
            decreases self.entries.len() - i,
        {
            assert(before[i as int].0 == self.entries[i as int].0@);
            i += 1;
        }
        proof {
            if i < self.entries.len() {
                assert(before[i as int].0 == self.entries[i as int].0@);
            }
            lemma_lex_irreflexive(pkg@);
        }
        if i < self.entries.len() && str_eq(self.entries[i].0.as_str(), pkg) {
            proof {
                assert(names[i as int] == pkg@);
                assert(names.contains(pkg@));
            }
            return i;
        }
        proof {
            assert(!names.contains(pkg@)) by {
                if names.contains(pkg@) {
                    let k = choose|k: int| 0 <= k < names.len() && names[k] == pkg@;
                    assert(before[k].0 == pkg@);
                    if k > i {
                        assert(lex_less(names[i as int], names[k]));
                    }
                }
            }
        }
        self.entries.insert(i, (String::from_str(pkg), Vec::new()));
        proof {
            let after = self@;
            assert(self.entries[i as int].1.deep_view() == Seq::<Seq<char>>::empty());
            assert(after == before.insert(i as int, (pkg@, Seq::empty())));
            assert(keys(after) == names.insert(i as int, pkg@));
            assert forall|j: int| 0 <= j < i implies lex_less(names[j], pkg@) by {
                assert(names[j] == before[j].0);
            }
            if i < names.len() {
                assert(names[i as int] == before[i as int].0);
            }
            lemma_insert_increasing(names, i as int, pkg@);
        }
        i
    }
}

/// Whether `list` holds the graph of the first `upto` files, in order.
spec fn covers(list: Seq<(Seq<char>, Seq<Seq<char>>)>, files: Seq<FileView>, upto: int) -> bool {
    &&& increasing(keys(list))
    &&& forall|pkg: Seq<char>| declares(files, upto, pkg) <==> keys(list).contains(pkg)
    &&& forall|e: int| 0 <= e < list.len() ==> increasing(#[trigger] list[e].1)
    &&& forall|e: int, dep: Seq<char>|
        0 <= e < list.len() ==> (depends(files, upto, list[e].0, dep) <==> (#[trigger] list[e].1.contains(dep)))
}

/// Whether `list` holds the graph of the first `i` files and of the first
/// `j` imports of the next one, whose package stands at `at`.
spec fn covers_partly(
    list: Seq<(Seq<char>, Seq<Seq<char>>)>,
    files: Seq<FileView>,
    i: int,
    j: int,
    at: int,
) -> bool {
    &&& 0 <= at < list.len()
    &&& list[at].0 == files[i].package
    &&& increasing(keys(list))
    &&& forall|pkg: Seq<char>| declares(files, i + 1, pkg) <==> keys(list).contains(pkg)
    &&& forall|e: int| 0 <= e < list.len() ==> increasing(#[trigger] list[e].1)
    &&& forall|e: int, dep: Seq<char>|
        0 <= e < list.len() && e != at ==> (depends(files, i, list[e].0, dep) <==> (
        #[trigger] list[e].1.contains(dep)))
    &&& forall|dep: Seq<char>|
        depends(files, i, files[i].package, dep) || imports(files, i, j, dep) <==> (
        #[trigger] list[at].1.contains(dep))
}

/// Builds the graph of the dependencies between the packages of `protos`.
///
/// A file's imports are looked up by file name. An import of a file that
/// is not among `protos` is passed over, and so is one of a file of the
/// importing file's own package. The result writes the graph out in order.
pub fn build_deps(protos: &[FileDescriptor]) -> (graph: DependencyGraph)
    ensures
        lists(graph@, graph_of(protos.deep_view())),
        graph@ == listing(graph_of(protos.deep_view())),
        forall|e: int| 0 <= e < graph@.len() ==> !(#[trigger] graph@[e]).1.contains(graph@[e].0),
{
    let ghost files = protos.deep_view();
    let mut graph = DependencyGraph::new();
    let mut i: usize = 0;
    proof {
        assert(keys(graph@).len() == 0);
        assert forall|pkg: Seq<char>| !declares(files, 0, pkg) by {}
    }
    while i < protos.len()
        invariant
            i <= protos.len(),
            files == protos.deep_view(),
            covers(graph@, files, i as int),
        decreases protos.len() - i,
    {
        let proto = &protos[i];
        let ghost before = graph@;
        assert(files[i as int] == proto@);
        let at = graph.entry(proto.package.as_str());
        proof {
            let list = graph@;
            let at = at as int;
            assert(keys(list).len() == list.len());
            assert(keys(before).len() == before.len());
            if !keys(before).contains(proto.package@) {
                assert(list == before.insert(at, (proto.package@, Seq::empty())));
                assert(list.len() == before.len() + 1);
                assert(forall|k: int| 0 <= k < at ==> list[k] == before[k]);
                assert(forall|k: int| at < k < list.len() ==> list[k] == before[k - 1]);
            } else {
                assert(list == before);
            }
            assert forall|pkg: Seq<char>| declares(files, i + 1, pkg) <==> keys(list).contains(pkg) by {
                lemma_declares_step(files, i as int, pkg);
                if keys(before).contains(proto.package@) {
                } else {
                    if keys(before).contains(pkg) {
                        let k = choose|k: int| 0 <= k < keys(before).len() && keys(before)[k] == pkg;
                        let k1 = if k < at { k } else { k + 1 };
                        assert(list[k1] == before[k]);
                        assert(keys(list)[k1] == pkg);
                    }
                    if keys(list).contains(pkg) {
                        let k = choose|k: int| 0 <= k < keys(list).len() && keys(list)[k] == pkg;
                        if k != at {
                            let k0 = if k < at { k } else { k - 1 };
                            assert(list[k] == before[k0]);
                            assert(keys(before)[k0] == pkg);
                        }
                    }
                }
                if pkg == proto.package@ {
                    assert(keys(list)[at] == pkg);
                }
            }
            assert forall|e: int| 0 <= e < list.len() implies increasing(#[trigger] list[e].1) by {
                if keys(before).contains(proto.package@) {
                } else if e < at {
                    assert(list[e] == before[e]);
                } else if e > at {
                    assert(list[e] == before[e - 1]);
                }
            }
            assert forall|e: int, dep: Seq<char>| 0 <= e < list.len() && e != at implies (depends(
                files,
                i as int,
                list[e].0,
                dep,
            ) <==> (#[trigger] list[e].1.contains(dep))) by {
                if keys(before).contains(proto.package@) {
                } else if e < at {
                    assert(list[e] == before[e]);
                } else {
                    assert(list[e] == before[e - 1]);
                }
            }
            assert forall|dep: Seq<char>|
                depends(files, i as int, files[i as int].package, dep) || imports(
                    files,
                    i as int,
                    0,
                    dep,
                ) <==> (#[trigger] list[at].1.contains(dep)) by {
                if keys(before).contains(proto.package@) {
                    assert(before[at].1.contains(dep) <==> depends(
                        files,
                        i as int,
                        before[at].0,
                        dep,
                    ));
                } else {
                    assert(!declares(files, i as int, proto.package@));
                    if depends(files, i as int, proto.package@, dep) {
                        let k = choose|k: int|
                            0 <= k < i && k < files.len() && #[trigger] files[k].package
                                == proto.package@ && imports(
                                files,
                                k,
                                files[k].dependency.len() as int,
                                dep,
                            );
                        assert(declares(files, i as int, proto.package@));
                    }
                }
            }
        }
        let mut j: usize = 0;
        while j < proto.dependency.len()
            invariant
                i < protos.len(),
                j <= proto.dependency.len(),
                files == protos.deep_view(),
                proto == &protos[i as int],
                files[i as int] == proto@,
                covers_partly(graph@, files, i as int, j as int, at as int),
            decreases proto.dependency.len() - j,
        {
            let ghost list = graph@;
            let ghost name = proto.dependency[j as int]@;
            assert(files[i as int].dependency[j as int] == name);
            let found = owner_of(protos, proto.dependency[j].as_str());
            if let Some(k) = found {
                if !str_eq(protos[k].package.as_str(), proto.package.as_str()) {
                    assert(list[at as int].1 == graph.entries[at as int].1.deep_view());
                    assert(increasing(list[at as int].1));
                    let entry = &mut graph.entries[at];
                    insert_name(&mut entry.1, protos[k].package.as_str());
                }
            }
            proof {
                let after = graph@;
                assert(after.len() == list.len());
                assert(forall|e: int| 0 <= e < list.len() && e != at ==> after[e] == list[e]);
                assert(after[at as int].0 == list[at as int].0);
                assert(keys(after) == keys(list));
                assert forall|dep: Seq<char>|
                    depends(files, i as int, files[i as int].package, dep) || imports(
                        files,
                        i as int,
                        j + 1,
                        dep,
                    ) <==> (#[trigger] after[at as int].1.contains(dep)) by {
                    lemma_imports_step(files, i as int, j as int, dep);
                    assert(depends(files, i as int, files[i as int].package, dep) || imports(
                        files,
                        i as int,
                        j as int,
                        dep,
                    ) <==> list[at as int].1.contains(dep));
                }
            }
            j += 1;
        }
        proof {
            let list = graph@;
            assert forall|e: int, dep: Seq<char>| 0 <= e < list.len() implies (depends(
                files,
                i + 1,
                list[e].0,
                dep,
            ) <==> (#[trigger] list[e].1.contains(dep))) by {
                lemma_depends_step(files, i as int, list[e].0, dep);
                if e != at {
                    lemma_lex_irreflexive(list[e].0);
                    if e < at {
                        assert(lex_less(keys(list)[e], keys(list)[at as int]));
                    } else {
                        assert(lex_less(keys(list)[at as int], keys(list)[e]));
                    }
                    assert(list[e].0 != files[i as int].package);
                }
            }
        }
        i += 1;
    }
    proof {
        let list = graph@;
        let g = graph_of(files);
        assert forall|e: int, dep: Seq<char>| 0 <= e < list.len() implies (g[list[e].0].contains(dep) <==> (
        #[trigger] list[e].1.contains(dep))) by {
            assert(keys(list)[e] == list[e].0);
            assert(keys(list).contains(list[e].0));
        }
        assert(lists(list, g));
        let chosen = listing(g);
        assert(lists(chosen, g));
        lemma_listing_unique(list, chosen, g);
        assert forall|e: int| 0 <= e < list.len() implies !(#[trigger] list[e]).1.contains(list[e].0) by {
            assert(keys(list)[e] == list[e].0);
            assert(keys(list).contains(list[e].0));
            lemma_no_self_loops(files, list[e].0);
        }
    }
    graph
}

impl DependencyGraph {
    /// Gives the package `pkg` an entry without dependencies, in place of
    /// the one it has, if any.
    pub(crate) fn insert_empty(&mut self, pkg: &str)
        requires
            increasing(keys(old(self)@)),
        ensures
            forall|graph: Map<Seq<char>, Set<Seq<char>>>|
                lists(old(self)@, graph) ==> lists(final(self)@, #[trigger] graph.insert(pkg@, Set::empty())),
    {
        let ghost before = self@;
        let at = self.entry(pkg);
        let ghost middle = self@;
        let entry = &mut self.entries[at];
        entry.1 = Vec::new();
        proof {
            let at = at as int;
            let list = self@;
            assert(self.entries[at].1.deep_view() == Seq::<Seq<char>>::empty());
            assert(list.len() == middle.len());
            assert(forall|e: int| 0 <= e < list.len() && e != at ==> list[e] == middle[e]);
            assert(list[at] == (pkg@, Seq::<Seq<char>>::empty()));
            assert(keys(list) == keys(middle));
            assert(keys(list).len() == list.len());
            assert(keys(before).len() == before.len());
            let fresh = !keys(before).contains(pkg@);
            if fresh {
                assert(middle == before.insert(at, (pkg@, Seq::empty())));
                assert(forall|k: int| 0 <= k < at ==> middle[k] == before[k]);
                assert(forall|k: int| at < k < middle.len() ==> middle[k] == before[k - 1]);
            }
            assert forall|graph: Map<Seq<char>, Set<Seq<char>>>| lists(before, graph) implies lists(
                list,
                #[trigger] graph.insert(pkg@, Set::empty()),
            ) by {
                let grown = graph.insert(pkg@, Set::empty());
                assert forall|x: Seq<char>| grown.dom().contains(x) <==> keys(list).contains(x) by {
                    if x == pkg@ {
                        assert(keys(list)[at] == x);
                    }
                    if keys(before).contains(x) {
                        let k = choose|k: int| 0 <= k < keys(before).len() && keys(before)[k] == x;
                        let k1 = if fresh && k >= at { k + 1 } else { k };
                        assert(middle[k1] == before[k]);
                        assert(keys(list)[k1] == x);
                    }
                    if keys(list).contains(x) && x != pkg@ {
                        let k = choose|k: int| 0 <= k < keys(list).len() && keys(list)[k] == x;
                        let k0 = if fresh && k > at { k - 1 } else { k };
                        assert(middle[k] == before[k0]);
                        assert(keys(before)[k0] == x);
                    }
                }
                assert forall|e: int| 0 <= e < list.len() implies increasing(#[trigger] list[e].1) by {
                    if e != at {
                        let e0 = if fresh && e > at { e - 1 } else { e };
                        assert(list[e] == before[e0]);
                    }
                }
                assert forall|e: int, dep: Seq<char>| 0 <= e < list.len() implies (grown[list[e].0].contains(
                    dep,
                ) <==> (#[trigger] list[e].1.contains(dep))) by {
                    if e != at {
                        let e0 = if fresh && e > at { e - 1 } else { e };
                        assert(list[e] == before[e0]);
                        lemma_lex_irreflexive(pkg@);
                        if e < at {
                            assert(lex_less(keys(list)[e], keys(list)[at]));
                        } else {
                            assert(lex_less(keys(list)[at], keys(list)[e]));
                        }
                        assert(list[e].0 != pkg@);
                        assert(graph[before[e0].0].contains(dep) <==> before[e0].1.contains(dep));
                    }
                }
            }
        }
    }
}

} // verus!
