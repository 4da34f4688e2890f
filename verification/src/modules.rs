//! The order of the generated modules.
//!
//! What the code generator hands back comes in no order of its own. The
//! output lists the modules by their paths, so that one input always gives
//! the same output.

use vstd::prelude::*;
use vstd::seq_lib::{to_multiset_build, to_multiset_remove};
use crate::text::{lemma_lex_irreflexive, lemma_lex_total, lemma_lex_transitive, lex_less, str_eq, str_less};

verus! {

/// Whether the path `a` comes strictly before `b`: paths are compared
/// segment by segment, and a path comes after its proper prefixes.
pub open spec fn path_less(a: Seq<Seq<char>>, b: Seq<Seq<char>>) -> bool
    decreases a.len(),
{
    if b.len() == 0 {
        false
    } else if a.len() == 0 {
        true
    } else if a[0] != b[0] {
        lex_less(a[0], b[0])
    } else {
        path_less(a.skip(1), b.skip(1))
    }
}

/// Of two paths at most one comes before the other.
pub proof fn lemma_path_asymmetric(a: Seq<Seq<char>>, b: Seq<Seq<char>>)
    ensures
        !(path_less(a, b) && path_less(b, a)),
    decreases a.len(),
{
    if a.len() > 0 && b.len() > 0 {
        if a[0] == b[0] {
            lemma_path_asymmetric(a.skip(1), b.skip(1));
        } else {
            lemma_lex_total(a[0], b[0]);
        }
    }
}

/// The order of paths is transitive.
pub proof fn lemma_path_transitive(a: Seq<Seq<char>>, b: Seq<Seq<char>>, c: Seq<Seq<char>>)
    requires
        path_less(a, b),
        path_less(b, c),
    ensures
        path_less(a, c),
    decreases a.len(),
{
    if a.len() > 0 {
        if a[0] == b[0] && b[0] == c[0] {
            lemma_path_transitive(a.skip(1), b.skip(1), c.skip(1));
        } else if a[0] != b[0] && b[0] != c[0] {
            lemma_lex_transitive(a[0], b[0], c[0]);
            lemma_lex_irreflexive(a[0]);
        }
    }
}

/// The first position at or after `from` whose module has a path after
/// `path`, or the number of modules where there is none.
pub open spec fn place(list: Seq<(Seq<Seq<char>>, Seq<char>)>, path: Seq<Seq<char>>, from: int) -> int
    decreases list.len() - from,
{
    if from >= list.len() {
        list.len() as int
    } else if from >= 0 && path_less(path, list[from].0) {
        from
    } else {
        place(list, path, from + 1)
    }
}

/// The modules `modules` in the order of their paths. Modules of one path
/// keep the order in which they were given.
pub open spec fn ordered_modules(modules: Seq<(Seq<Seq<char>>, Seq<char>)>) -> Seq<
    (Seq<Seq<char>>, Seq<char>),
>
    decreases modules.len(),
{
    if modules.len() == 0 {
        modules
    } else {
        let head = ordered_modules(modules.drop_last());
        head.insert(place(head, modules.last().0, 0), modules.last())
    }
}

/// Whether no module of `list` stands before one whose path comes before
/// its own.
pub open spec fn by_path(list: Seq<(Seq<Seq<char>>, Seq<char>)>) -> bool {
    forall|i: int, j: int| 0 <= i < j < list.len() ==> !path_less(#[trigger] list[j].0, #[trigger] list[i].0)
}

proof fn lemma_place(list: Seq<(Seq<Seq<char>>, Seq<char>)>, path: Seq<Seq<char>>, from: int)
    requires
        0 <= from <= list.len(),
    ensures
        from <= place(list, path, from) <= list.len(),
        forall|j: int| from <= j < place(list, path, from) ==> !path_less(path, list[j].0),
        place(list, path, from) < list.len() ==> path_less(path, list[place(list, path, from)].0),
    decreases list.len() - from,
{
    if from < list.len() && !path_less(path, list[from].0) {
        lemma_place(list, path, from + 1);
    }
}

proof fn lemma_place_is(list: Seq<(Seq<Seq<char>>, Seq<char>)>, path: Seq<Seq<char>>, from: int, k: int)
    requires
        0 <= from <= k <= list.len(),
        forall|j: int| from <= j < k ==> !path_less(path, list[j].0),
        k == list.len() || path_less(path, list[k].0),
    ensures
        place(list, path, from) == k,
    decreases k - from,
{
    if from < k {
        lemma_place_is(list, path, from + 1, k);
    }
}

/// Putting a module at its place keeps a list in the order of its paths,
/// and adds the module to what the list holds.
proof fn lemma_insert_by_path(list: Seq<(Seq<Seq<char>>, Seq<char>)>, module: (Seq<Seq<char>>, Seq<char>))
    requires
        by_path(list),
    ensures
        by_path(list.insert(place(list, module.0, 0), module)),
        list.insert(place(list, module.0, 0), module).to_multiset() == list.to_multiset().insert(module),
{
    let at = place(list, module.0, 0);
    lemma_place(list, module.0, 0);
    let after = list.insert(at, module);
    assert forall|i: int, j: int| 0 <= i < j < after.len() implies !path_less(
        #[trigger] after[j].0,
        #[trigger] after[i].0,
    ) by {
        if j == at {
            assert(after[i] == list[i]);
        } else if i == at {
            assert(after[j] == list[j - 1]);
            lemma_path_asymmetric(module.0, list[at].0);
            if j - 1 > at {
                assert(!path_less(list[j - 1].0, list[at].0));
                if path_less(list[j - 1].0, module.0) {
                    lemma_path_transitive(list[j - 1].0, module.0, list[at].0);
                }
            }
        } else {
            let i0 = if i < at { i } else { i - 1 };
            let j0 = if j < at { j } else { j - 1 };
            assert(after[i] == list[i0]);
            assert(after[j] == list[j0]);
            assert(!path_less(list[j0].0, list[i0].0));
        }
    }
    assert(after.remove(at) == list);
    to_multiset_remove(after, at);
    assert(after[at] == module);
    after.to_multiset_ensures();
    assert(after.contains(module));
    assert(after.to_multiset() =~= list.to_multiset().insert(module));
}

/// The ordered modules are the given ones, each as often as it was given,
/// and they stand in the order of their paths.
pub proof fn lemma_ordered_modules(modules: Seq<(Seq<Seq<char>>, Seq<char>)>)
    ensures
        by_path(ordered_modules(modules)),
        ordered_modules(modules).to_multiset() == modules.to_multiset(),
    decreases modules.len(),
{
    if modules.len() > 0 {
        let head = modules.drop_last();
        lemma_ordered_modules(head);
        lemma_insert_by_path(ordered_modules(head), modules.last());
        to_multiset_build(head, modules.last());
        assert(head.push(modules.last()) == modules);
    }
}

proof fn lemma_path_skip(a: Seq<Seq<char>>, b: Seq<Seq<char>>, n: int)
    requires
        0 <= n <= a.len(),
        n <= b.len(),
        a.take(n) == b.take(n),
    ensures
        path_less(a, b) == path_less(a.skip(n), b.skip(n)),
    decreases n,
{
    if n == 0 {
        assert(a.skip(0) =~= a);
        assert(b.skip(0) =~= b);
    } else {
        assert(a[0] == a.take(n)[0]);
        assert(b[0] == b.take(n)[0]);
        assert(a.skip(1).take(n - 1) =~= a.take(n).skip(1));
        assert(b.skip(1).take(n - 1) =~= b.take(n).skip(1));
        lemma_path_skip(a.skip(1), b.skip(1), n - 1);
        assert(a.skip(1).skip(n - 1) =~= a.skip(n));
        assert(b.skip(1).skip(n - 1) =~= b.skip(n));
    }
}

/// Whether the path `a` comes strictly before `b`.
pub fn path_before(a: &Vec<String>, b: &Vec<String>) -> (r: bool)
    ensures
        r == path_less(a.deep_view(), b.deep_view()),
{
    let ghost x = a.deep_view();
    let ghost y = b.deep_view();
    let mut i: usize = 0;
    while i < a.len() && i < b.len() && str_eq(a[i].as_str(), b[i].as_str())
        invariant
            i <= a.len(),
            i <= b.len(),
            x == a.deep_view(),
            y == b.deep_view(),
            x.take(i as int) == y.take(i as int),
        decreases a.len() - i,
    {
        proof {
            assert(x.take(i + 1) =~= x.take(i as int).push(x[i as int]));
            assert(y.take(i + 1) =~= y.take(i as int).push(y[i as int]));
        }
        i += 1;
    }
    proof {
        lemma_path_skip(x, y, i as int);
        if i < a.len() && i < b.len() {
            assert(x.skip(i as int)[0] == a[i as int]@);
            assert(y.skip(i as int)[0] == b[i as int]@);
        }
    }
    if i >= b.len() {
        false
    } else if i >= a.len() {
        true
    } else {
        str_less(a[i].as_str(), b[i].as_str())
    }
}

/// Puts the generated modules in the order of their paths.
///
/// The result holds the given modules, each as often as it was given, and
/// no module in it stands before one whose path comes before its own.
pub fn order_modules(modules: Vec<(Vec<String>, String)>) -> (out: Vec<(Vec<String>, String)>)
    ensures
        out.deep_view() == ordered_modules(modules.deep_view()),
        by_path(out.deep_view()),
        out.deep_view().to_multiset() == modules.deep_view().to_multiset(),
{
    let ghost all = modules.deep_view();
    let mut rest = modules;
    let mut out: Vec<(Vec<String>, String)> = Vec::new();
    let ghost mut done: int = 0;
    proof {
        assert(all.take(0) == Seq::<(Seq<Seq<char>>, Seq<char>)>::empty());
        assert(out.deep_view() == Seq::<(Seq<Seq<char>>, Seq<char>)>::empty());
        assert(all.skip(0) == all);
    }
    while rest.len() > 0
        invariant
            0 <= done <= all.len(),
            rest.deep_view() == all.skip(done),
            out.deep_view() == ordered_modules(all.take(done)),
        decreases rest.len(),
    {
        let ghost before_rest = rest.deep_view();
        let module = rest.remove(0);
        let ghost m = (module.0.deep_view(), module.1@);
        proof {
            assert(before_rest.len() == all.len() - done);
            assert(m == before_rest[0]);
            assert(m == all[done]);
            assert(rest.deep_view() == before_rest.remove(0));
            assert(before_rest.remove(0) == all.skip(done + 1));
            assert(all.take(done + 1).drop_last() == all.take(done));
            assert(all.take(done + 1).last() == m);
        }
        let ghost list = out.deep_view();
        let mut at: usize = 0;
        while at < out.len() && !path_before(&module.0, &out[at].0)
            invariant
                at <= out.len(),
                list == out.deep_view(),
                m.0 == module.0.deep_view(),
                forall|j: int| 0 <= j < at ==> !path_less(m.0, list[j].0),
            decreases out.len() - at,
        {
            assert(list[at as int].0 == out[at as int].0.deep_view());
            at += 1;
        }
        proof {
            if at < out.len() {
                assert(list[at as int].0 == out[at as int].0.deep_view());
            }
            lemma_place_is(list, m.0, 0, at as int);
        }
        out.insert(at, module);
        proof {
            assert(out.deep_view() == list.insert(at as int, m));
            done = done + 1;
        }
    }
    proof {
        assert(all.take(all.len() as int) == all);
        lemma_ordered_modules(all);
    }
    out
}

} // verus!
