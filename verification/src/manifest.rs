//! The package manifest: one feature for each package, put into a template.

use vstd::prelude::*;
use vstd::string::StringExecFns;
use crate::deps::{build_deps, graph_of, keys, lemma_listing_unique, listing, lists, DependencyGraph, FileDescriptor, FileView};
use crate::text::{chars_of, increasing, join, join_strings, lemma_insert_increasing, lex_less, string_of};

verus! {

/// `s` between double quotes.
pub open spec fn quoted(s: Seq<char>) -> Seq<char> {
    "\""@ + s + "\""@
}

/// The declaration of the feature `feature`, which turns on the features
/// `deps`.
pub open spec fn feature_line(feature: Seq<char>, deps: Seq<Seq<char>>) -> Seq<char> {
    quoted(feature) + " = ["@ + join(deps.map_values(|d: Seq<char>| quoted(d)), ", "@) + "]"@
}

/// The declarations of the features of `list`, one on each line.
pub open spec fn features_text(list: Seq<(Seq<char>, Seq<Seq<char>>)>) -> Seq<char> {
    join(list.map_values(|e: (Seq<char>, Seq<Seq<char>>)| feature_line(e.0, e.1)), "\n"@)
}

/// `s` with each occurrence of `pattern` replaced by `with`, from the
/// left; occurrences do not overlap. The empty pattern occurs nowhere.
pub open spec fn replaced(s: Seq<char>, pattern: Seq<char>, with: Seq<char>) -> Seq<char>
    decreases s.len(),
{
    if pattern.len() == 0 || s.len() < pattern.len() {
        s
    } else if s.take(pattern.len() as int) == pattern {
        with + replaced(s.skip(pattern.len() as int), pattern, with)
    } else {
        seq![s[0]] + replaced(s.skip(1), pattern, with)
    }
}

/// Whether `pattern` occurs in `s`.
pub open spec fn occurs(s: Seq<char>, pattern: Seq<char>) -> bool {
    exists|i: int| 0 <= i && i + pattern.len() <= s.len() && #[trigger] s.subrange(i, i + pattern.len())
        == pattern
}

/// A text in which the pattern does not occur stays as it is.
pub proof fn lemma_replaced_absent(s: Seq<char>, pattern: Seq<char>, with: Seq<char>)
    requires
        !occurs(s, pattern),
    ensures
        replaced(s, pattern, with) == s,
    decreases s.len(),
{
    if pattern.len() > 0 && s.len() >= pattern.len() {
        assert(s.subrange(0int, 0int + pattern.len()) == s.take(pattern.len() as int));
        let rest = s.skip(1);
        assert(!occurs(rest, pattern)) by {
            if occurs(rest, pattern) {
                let i = choose|i: int|
                    0 <= i && i + pattern.len() <= rest.len() && #[trigger] rest.subrange(
                        i,
                        i + pattern.len(),
                    ) == pattern;
                assert(s.subrange(i + 1, i + 1 + pattern.len()) == rest.subrange(i, i + pattern.len()));
            }
        }
        lemma_replaced_absent(rest, pattern, with);
        assert(seq![s[0]] + rest == s);
    }
}

/// The graph with the feature of the embedded descriptor set, which
/// depends on nothing, where `fdesc` asks for it.
pub open spec fn with_descriptor_feature(graph: Map<Seq<char>, Set<Seq<char>>>, fdesc: bool) -> Map<
    Seq<char>,
    Set<Seq<char>>,
> {
    if fdesc {
        graph.insert("file_descriptor_set"@, Set::empty())
    } else {
        graph
    }
}

/// The manifest for `files`: the template with its placeholder replaced by
/// the features of the packages, in order.
pub open spec fn manifest_text(tpl: Seq<char>, files: Seq<FileView>, fdesc: bool) -> Seq<char> {
    replaced(
        tpl,
        "{{ features }}"@,
        features_text(listing(with_descriptor_feature(graph_of(files), fdesc))),
    )
}

/// Whether `pattern` stands at position `at` of `s`.
fn stands_at(s: &Vec<char>, at: usize, pattern: &Vec<char>) -> (r: bool)
    requires
        at <= s.len(),
    ensures
        r == (at + pattern.len() <= s.len() && s@.skip(at as int).take(pattern.len() as int) == pattern@),
{
    let m = pattern.len();
    if s.len() - at < m {
        return false;
    }
    let ghost window = s@.skip(at as int).take(m as int);
    let mut k: usize = 0;
    while k < m
        invariant
            k <= m,
            m == pattern.len(),
            at + m <= s.len(),
            window == s@.skip(at as int).take(m as int),
            forall|j: int| 0 <= j < k ==> window[j] == pattern@[j],
        decreases m - k,
    {
        if s[at + k] != pattern[k] {
            assert(window[k as int] != pattern@[k as int]);
            return false;
        }
        k += 1;
    }
    assert(window =~= pattern@);
    true
}

/// Replaces each occurrence of `pattern` in `text` by `with`.
pub fn replace_all(text: &str, pattern: &str, with: &str) -> (out: String)
    ensures
        out@ == replaced(text@, pattern@, with@),
{
    let s = chars_of(text);
    let p = chars_of(pattern);
    let n = s.len();
    let m = p.len();
    if m == 0 {
        return string_of(&s);
    }
    let mut out = String::new();
    let mut i: usize = 0;
    let mut plain: Vec<char> = Vec::new();
    proof {
        assert(s@.skip(0) == s@);
    }
    while i < n
        invariant
            i <= n,
            n == s.len(),
            m == p.len(),
            m > 0,
            s@ == text@,
            p@ == pattern@,
            replaced(s@, p@, with@) == out@ + plain@ + replaced(s@.skip(i as int), p@, with@),
        decreases n - i,
    {
        let ghost rest = s@.skip(i as int);
        if stands_at(&s, i, &p) {
            let chunk = string_of(&plain);
            out.append(chunk.as_str());
            out.append(with);
            plain = Vec::new();
            proof {
                assert(rest.skip(m as int) == s@.skip(i + m));
            }
            i += m;
        } else {
            proof {
                assert(rest.skip(1) == s@.skip(i + 1));
                assert(rest[0] == s@[i as int]);
                if rest.len() < m {
                    // What is left is too short to hold the pattern, and
                    // so is every tail of it.
                    lemma_short_tail(rest, p@, with@);
                    lemma_short_tail(rest.skip(1), p@, with@);
                    assert(seq![rest[0]] + rest.skip(1) == rest);
                }
            }
            plain.push(s[i]);
            i += 1;
        }
    }
    let chunk = string_of(&plain);
    out.append(chunk.as_str());
    proof {
        assert(s@.skip(n as int).len() == 0);
    }
    out
}

proof fn lemma_short_tail(s: Seq<char>, pattern: Seq<char>, with: Seq<char>)
    requires
        s.len() < pattern.len(),
    ensures
        replaced(s, pattern, with) == s,
{
}

/// Writes `s` between double quotes.
fn quote(s: &str) -> (out: String)
    ensures
        out@ == quoted(s@),
{
    let mut out = String::from_str("\"");
    out.append(s);
    out.append("\"");
    out
}

/// Writes the declaration of one feature.
pub fn feature_decl(feature: &str, deps: &Vec<String>) -> (out: String)
    ensures
        out@ == feature_line(feature@, deps.deep_view()),
{
    let mut names: Vec<String> = Vec::new();
    let ghost all = deps.deep_view();
    let mut i: usize = 0;
    while i < deps.len()
        invariant
            i <= deps.len(),
            all == deps.deep_view(),
            names.deep_view() == all.take(i as int).map_values(|d: Seq<char>| quoted(d)),
        decreases deps.len() - i,
    {
        let q = quote(deps[i].as_str());
        let ghost before = names.deep_view();
        names.push(q);
        assert(names.deep_view() == before.push(quoted(all[i as int])));
        assert(all.take(i + 1) == all.take(i as int).push(all[i as int]));
        assert(names.deep_view() == all.take(i + 1).map_values(|d: Seq<char>| quoted(d)));
        i += 1;
    }
    assert(all.take(deps.len() as int) == all);
    let mut out = quote(feature);
    out.append(" = [");
    let inner = join_strings(&names, ", ");
    out.append(inner.as_str());
    out.append("]");
    out
}

/// Writes the declarations of all features of `graph`, one on each line.
pub fn render_features(graph: &DependencyGraph) -> (out: String)
    ensures
        out@ == features_text(graph@),
{
    let mut lines: Vec<String> = Vec::new();
    let ghost all = graph@;
    let mut i: usize = 0;
    while i < graph.entries.len()
        invariant
            i <= graph.entries.len(),
            all == graph@,
            lines.deep_view() == all.take(i as int).map_values(
                |e: (Seq<char>, Seq<Seq<char>>)| feature_line(e.0, e.1),
            ),
        decreases graph.entries.len() - i,
    {
        let line = feature_decl(graph.entries[i].0.as_str(), &graph.entries[i].1);
        let ghost before = lines.deep_view();
        lines.push(line);
        assert(all[i as int] == (graph.entries[i as int].0@, graph.entries[i as int].1.deep_view()));
        assert(lines.deep_view() == before.push(feature_line(all[i as int].0, all[i as int].1)));
        assert(all.take(i + 1) == all.take(i as int).push(all[i as int]));
        assert(lines.deep_view() == all.take(i + 1).map_values(
            |e: (Seq<char>, Seq<Seq<char>>)| feature_line(e.0, e.1),
        ));
        i += 1;
    }
    assert(all.take(graph.entries.len() as int) == all);
    join_strings(&lines, "\n")
}

/// Writes the package manifest: the template `tpl` with its placeholder
/// `{{ features }}` replaced by one feature for each package of `protos`,
/// and one for the embedded descriptor set where `fdesc` is set.
///
/// A template without the placeholder comes back as it is.
pub fn gen_manifest(tpl: &str, protos: &[FileDescriptor], fdesc: bool) -> (out: String)
    ensures
        out@ == manifest_text(tpl@, protos.deep_view(), fdesc),
{
    let mut deps = build_deps(protos);
    let ghost graph = graph_of(protos.deep_view());
    if fdesc {
        deps.insert_empty("file_descriptor_set");
    }
    proof {
        let full = with_descriptor_feature(graph, fdesc);
        assert(lists(deps@, full));
        lemma_listing_unique(deps@, listing(full), full);
    }
    let features = render_features(&deps);
    replace_all(tpl, "{{ features }}", features.as_str())
}

/// The number of strings at the start of `names` that come before `key`,
/// counted from `from`.
spec fn rank(names: Seq<Seq<char>>, key: Seq<char>, from: int) -> int
    decreases names.len() - from,
{
    if from >= names.len() {
        names.len() as int
    } else if from >= 0 && !lex_less(names[from], key) {
        from
    } else {
        rank(names, key, from + 1)
    }
}

proof fn lemma_rank(names: Seq<Seq<char>>, key: Seq<char>, from: int)
    requires
        0 <= from <= names.len(),
    ensures
        from <= rank(names, key, from) <= names.len(),
        forall|j: int| from <= j < rank(names, key, from) ==> lex_less(names[j], key),
        rank(names, key, from) < names.len() ==> !lex_less(names[rank(names, key, from)], key),
    decreases names.len() - from,
{
    if from < names.len() && lex_less(names[from], key) {
        lemma_rank(names, key, from + 1);
    }
}

/// Where no package has the name of the descriptor set's feature, asking
/// for that feature adds one entry to the listing, without dependencies,
/// and leaves every other entry as it was.
pub proof fn lemma_descriptor_feature(
    graph: Map<Seq<char>, Set<Seq<char>>>,
    list: Seq<(Seq<char>, Seq<Seq<char>>)>,
)
    requires
        lists(list, graph),
        !graph.dom().contains("file_descriptor_set"@),
    ensures
        exists|at: int|
            0 <= at <= list.len() && #[trigger] list.insert(at, ("file_descriptor_set"@, Seq::empty()))
                == listing(with_descriptor_feature(graph, true)),
{
    let key = "file_descriptor_set"@;
    let names = keys(list);
    let at = rank(names, key, 0);
    lemma_rank(names, key, 0);
    let entry = (key, Seq::<Seq<char>>::empty());
    let grown = list.insert(at, entry);
    let full = with_descriptor_feature(graph, true);
    assert(names.len() == list.len());
    assert(keys(grown) == names.insert(at, key));
    if at < names.len() {
        assert(names.contains(names[at]));
    }
    lemma_insert_increasing(names, at, key);
    assert forall|pkg: Seq<char>| full.dom().contains(pkg) <==> keys(grown).contains(pkg) by {
        if pkg == key {
            assert(keys(grown)[at] == pkg);
        }
        if names.contains(pkg) {
            let k = choose|k: int| 0 <= k < names.len() && names[k] == pkg;
            let k1 = if k < at { k } else { k + 1 };
            assert(keys(grown)[k1] == pkg);
        }
        if keys(grown).contains(pkg) && pkg != key {
            let k = choose|k: int| 0 <= k < keys(grown).len() && keys(grown)[k] == pkg;
            let k0 = if k < at { k } else { k - 1 };
            assert(names[k0] == pkg);
        }
    }
    assert forall|i: int| 0 <= i < grown.len() implies increasing(#[trigger] grown[i].1) by {
        if i != at {
            let i0 = if i < at { i } else { i - 1 };
            assert(grown[i] == list[i0]);
        }
    }
    assert forall|i: int, dep: Seq<char>| 0 <= i < grown.len() implies (full[grown[i].0].contains(dep) <==> (
    #[trigger] grown[i].1.contains(dep))) by {
        if i != at {
            let i0 = if i < at { i } else { i - 1 };
            assert(grown[i] == list[i0]);
            assert(names[i0] == list[i0].0);
            assert(names.contains(list[i0].0));
            assert(graph[list[i0].0].contains(dep) <==> list[i0].1.contains(dep));
        }
    }
    assert(lists(grown, full));
    lemma_listing_unique(grown, listing(full), full);
}

} // verus!
