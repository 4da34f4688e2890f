//! Splitting of the plugin's parameter string into raw options.
//!
//! A parameter string is a list of fields divided by a separator. A separator
//! that directly follows the escape marker belongs to the field's text, and
//! the marker before it is dropped.

use vstd::prelude::*;
use crate::text::{chars_of, join, string_of};

verus! {

/// The character that turns a following separator into plain text.
pub const ESCAPE: char = '\\';

/// Whether a field ends at position `i` of `s`: a separator stands there and
/// it is not escaped. Where the separator is the escape marker itself, none
/// of its occurrences is escaped.
pub open spec fn splits_at(s: Seq<char>, sep: char, i: int) -> bool {
    &&& 0 <= i < s.len()
    &&& s[i] == sep
    &&& !(sep != ESCAPE && i > 0 && s[i - 1] == ESCAPE)
}

/// The first position at or after `from` where a field ends, or the length
/// of `s` where there is none.
pub open spec fn next_split(s: Seq<char>, sep: char, from: int) -> int
    decreases s.len() - from,
{
    if from >= s.len() {
        s.len() as int
    } else if splits_at(s, sep, from) {
        from
    } else {
        next_split(s, sep, from + 1)
    }
}

/// The text of a field: `t` without the escape markers that stand directly
/// before a separator.
pub open spec fn unescape(t: Seq<char>, sep: char) -> Seq<char>
    decreases t.len(),
{
    if t.len() == 0 {
        t
    } else if sep != ESCAPE && t.len() >= 2 && t.last() == sep && t[t.len() - 2] == ESCAPE {
        unescape(t.drop_last().drop_last(), sep).push(sep)
    } else {
        unescape(t.drop_last(), sep).push(t.last())
    }
}

/// The fields of `s`, in order.
///
/// Each unescaped separator ends a field, and what follows the last of them
/// is the last field. An escape marker that no separator follows is plain
/// text, also at the end of `s`.
pub open spec fn split_fields(s: Seq<char>, sep: char) -> Seq<Seq<char>>
    decreases s.len(),
{
    let k = next_split(s, sep, 0);
    if 0 <= k < s.len() {
        seq![unescape(s.take(k), sep)] + split_fields(s.skip(k + 1), sep)
    } else {
        seq![unescape(s, sep)]
    }
}

/// `next_split` finds `k` where no field ends between `from` and `k`, and
/// one ends at `k` or `k` is the end of `s`.
proof fn lemma_next_split_is(s: Seq<char>, sep: char, from: int, k: int)
    requires
        0 <= from <= k <= s.len(),
        forall|j: int| from <= j < k ==> !splits_at(s, sep, j),
        k == s.len() || splits_at(s, sep, k),
    ensures
        next_split(s, sep, from) == k,
    decreases k - from,
{
    if from < k {
        lemma_next_split_is(s, sep, from + 1, k);
    }
}

/// `next_split` stays within `s`, a field ends where it points, and none
/// ends before.
proof fn lemma_next_split_found(s: Seq<char>, sep: char, from: int)
    requires
        0 <= from <= s.len(),
    ensures
        from <= next_split(s, sep, from) <= s.len(),
        next_split(s, sep, from) < s.len() ==> splits_at(s, sep, next_split(s, sep, from)),
        forall|j: int| from <= j < next_split(s, sep, from) ==> !splits_at(s, sep, j),
    decreases s.len() - from,
{
    if from < s.len() && !splits_at(s, sep, from) {
        lemma_next_split_found(s, sep, from + 1);
    }
}

/// `f` with an escape marker put before each separator in it.
pub open spec fn escape(f: Seq<char>, sep: char) -> Seq<char>
    decreases f.len(),
{
    if f.len() == 0 {
        f
    } else if f.last() == sep {
        escape(f.drop_last(), sep).push(ESCAPE).push(sep)
    } else {
        escape(f.drop_last(), sep).push(f.last())
    }
}

/// The parameter string that lists `fields`: each field escaped, with the
/// separator between neighbours.
pub open spec fn join_escaped(fields: Seq<Seq<char>>, sep: char) -> Seq<char> {
    join(fields.map_values(|f: Seq<char>| escape(f, sep)), seq![sep])
}

/// Whether a separator that follows `s` is escaped by the end of `s`.
pub open spec fn escapes_next(s: Seq<char>, sep: char) -> bool {
    sep != ESCAPE && s.len() > 0 && s.last() == ESCAPE
}

/// Whether escaping can carry `f` through a parameter string, whatever
/// follows it. A field that ends in the escape marker cannot be told from
/// one that escapes the separator after it; where the separator is the
/// escape marker itself, a field cannot hold it at all.
pub open spec fn escapable(f: Seq<char>, sep: char) -> bool {
    if sep == ESCAPE {
        !f.contains(ESCAPE)
    } else {
        f.len() == 0 || f.last() != ESCAPE
    }
}

/// Whether no field ends inside `e`.
spec fn closed(e: Seq<char>, sep: char) -> bool {
    forall|j: int| 0 <= j < e.len() ==> !#[trigger] splits_at(e, sep, j)
}

proof fn lemma_unescape_escape(f: Seq<char>, sep: char)
    requires
        sep == ESCAPE ==> !f.contains(sep),
    ensures
        unescape(escape(f, sep), sep) == f,
    decreases f.len(),
{
    if f.len() > 0 {
        let head = f.drop_last();
        let e = escape(f, sep);
        assert forall|c: char| head.contains(c) implies f.contains(c) by {
            let i = choose|i: int| 0 <= i < head.len() && head[i] == c;
            assert(f[i] == c);
        }
        lemma_unescape_escape(head, sep);
        if f.last() == sep {
            assert(f.contains(sep)) by {
                assert(f[f.len() - 1] == sep);
            }
            assert(e.drop_last().drop_last() == escape(head, sep));
        } else {
            assert(e.drop_last() == escape(head, sep));
        }
        assert(head.push(f.last()) == f);
    }
}

proof fn lemma_escape_closed(f: Seq<char>, sep: char)
    requires
        escapable(f, sep),
    ensures
        closed(escape(f, sep), sep),
        !escapes_next(escape(f, sep), sep),
        sep != ESCAPE && f.len() > 0 ==> escape(f, sep).len() > 0 && escape(f, sep).last() == f.last(),
        f.len() == 0 ==> escape(f, sep).len() == 0,
    decreases f.len(),
{
    if f.len() > 0 {
        let head = f.drop_last();
        let e = escape(f, sep);
        if sep == ESCAPE {
            assert forall|c: char| head.contains(c) implies f.contains(c) by {
                let i = choose|i: int| 0 <= i < head.len() && head[i] == c;
                assert(f[i] == c);
            }
            assert(f.last() != sep) by {
                if f.last() == sep {
                    assert(f[f.len() - 1] == ESCAPE);
                    assert(f.contains(ESCAPE));
                }
            }
            lemma_escape_closed(head, sep);
            assert forall|j: int| 0 <= j < e.len() implies !#[trigger] splits_at(e, sep, j) by {
                if j < e.len() - 1 {
                    assert(!splits_at(escape(head, sep), sep, j));
                }
            }
        } else {
            lemma_escape_open_head(head, sep);
            let eh = escape(head, sep);
            assert forall|j: int| 0 <= j < e.len() implies !#[trigger] splits_at(e, sep, j) by {
                if j < eh.len() {
                    assert(!splits_at(eh, sep, j));
                }
            }
        }
    }
}

/// Escaping keeps every separator of a field escaped, whatever the field
/// ends in.
proof fn lemma_escape_open_head(f: Seq<char>, sep: char)
    requires
        sep != ESCAPE,
    ensures
        closed(escape(f, sep), sep),
    decreases f.len(),
{
    if f.len() > 0 {
        let head = f.drop_last();
        let e = escape(f, sep);
        let eh = escape(head, sep);
        lemma_escape_open_head(head, sep);
        assert forall|j: int| 0 <= j < e.len() implies !#[trigger] splits_at(e, sep, j) by {
            if j < eh.len() {
                assert(!splits_at(eh, sep, j));
            }
        }
    }
}

proof fn lemma_next_split_append(a: Seq<char>, x: Seq<char>, sep: char, from: int)
    requires
        0 <= from <= a.len(),
        next_split(a, sep, from) < a.len(),
    ensures
        next_split(a + x, sep, from) == next_split(a, sep, from),
    decreases a.len() - from,
{
    assert(splits_at(a + x, sep, from) == splits_at(a, sep, from));
    if !splits_at(a, sep, from) {
        lemma_next_split_append(a, x, sep, from + 1);
    }
}

proof fn lemma_split_closed(e: Seq<char>, sep: char)
    requires
        closed(e, sep),
    ensures
        split_fields(e, sep) == seq![unescape(e, sep)],
{
    lemma_next_split_is(e, sep, 0, e.len() as int);
}

proof fn lemma_split_append(a: Seq<char>, e: Seq<char>, sep: char)
    requires
        !escapes_next(a, sep),
        closed(e, sep),
    ensures
        split_fields(a + seq![sep] + e, sep) == split_fields(a, sep).push(unescape(e, sep)),
    decreases a.len(),
{
    let x = seq![sep] + e;
    let whole = a + seq![sep] + e;
    assert(whole == a + x);
    lemma_next_split_found(a, sep, 0);
    let k = next_split(a, sep, 0);
    if k < a.len() {
        lemma_next_split_append(a, x, sep, 0);
        let rest = a.skip(k + 1);
        assert(whole.take(k) == a.take(k));
        assert(whole.skip(k + 1) == rest + seq![sep] + e);
        assert(!escapes_next(rest, sep)) by {
            if rest.len() > 0 {
                assert(rest.last() == a.last());
            }
        }
        lemma_split_append(rest, e, sep);
        assert(seq![unescape(a.take(k), sep)] + split_fields(rest, sep).push(unescape(e, sep))
            == (seq![unescape(a.take(k), sep)] + split_fields(rest, sep)).push(unescape(e, sep)));
    } else {
        assert forall|j: int| 0 <= j < a.len() implies !splits_at(whole, sep, j) by {
            assert(splits_at(whole, sep, j) == splits_at(a, sep, j));
        }
        assert(splits_at(whole, sep, a.len() as int));
        lemma_next_split_is(whole, sep, 0, a.len() as int);
        assert(whole.take(a.len() as int) == a);
        assert(whole.skip(a.len() as int + 1) == e);
        lemma_split_closed(e, sep);
        assert(seq![unescape(a, sep)] + seq![unescape(e, sep)] == seq![unescape(a, sep)].push(
            unescape(e, sep),
        ));
    }
}

/// Whether a parameter string can list `fields`: there is at least one, and
/// escaping can carry each of them. The last field, which no separator
/// follows, may end in the escape marker.
pub open spec fn listable(fields: Seq<Seq<char>>, sep: char) -> bool {
    &&& fields.len() > 0
    &&& forall|i: int|
        0 <= i < fields.len() && (i + 1 < fields.len() || sep == ESCAPE) ==> escapable(
            #[trigger] fields[i],
            sep,
        )
}

/// Splitting undoes joining: a list of fields that is written out with its
/// separators escaped is read back as it was.
///
/// This holds of every list that a parameter string can hold.
pub proof fn lemma_split_inverts_join(fields: Seq<Seq<char>>, sep: char)
    requires
        listable(fields, sep),
    ensures
        split_fields(join_escaped(fields, sep), sep) == fields,
    decreases fields.len(),
{
    let escaped = fields.map_values(|f: Seq<char>| escape(f, sep));
    let last = fields.last();
    if sep == ESCAPE {
        assert(escapable(last, sep));
        lemma_escape_closed(last, sep);
    } else {
        lemma_escape_open_head(last, sep);
    }
    lemma_unescape_escape(last, sep);
    if fields.len() == 1 {
        assert(join_escaped(fields, sep) == escape(last, sep));
        lemma_split_closed(escape(last, sep), sep);
        assert(fields == seq![last]);
    } else {
        let head = fields.drop_last();
        let a = join_escaped(head, sep);
        assert(escaped.drop_last() == head.map_values(|f: Seq<char>| escape(f, sep)));
        assert(join_escaped(fields, sep) == a + seq![sep] + escape(last, sep));
        assert(listable(head, sep)) by {
            assert forall|i: int|
                0 <= i < head.len() && (i + 1 < head.len() || sep == ESCAPE) implies escapable(
                #[trigger] head[i],
                sep,
            ) by {
                assert(head[i] == fields[i]);
            }
        }
        lemma_split_inverts_join(head, sep);
        assert(!escapes_next(a, sep)) by {
            let tail = head.last();
            assert(escapable(tail, sep));
            lemma_escape_closed(tail, sep);
            let eh = head.map_values(|f: Seq<char>| escape(f, sep));
            assert(eh.last() == escape(tail, sep));
            if head.len() > 1 {
                assert(a == join(eh.drop_last(), seq![sep]) + seq![sep] + escape(tail, sep));
            } else {
                assert(a == escape(tail, sep));
            }
        }
        lemma_split_append(a, escape(last, sep), sep);
        assert(head.push(last) == fields);
    }
}

/// Split a string by a char separator, but not when the separator is
/// preceded by a `\`. A `\` before anything else, or at the end, stays.
pub fn split_escaped(string: &str, sep: char) -> (ret: Vec<String>)
    ensures
        ret.deep_view() == split_fields(string@, sep),
{
    let chars = chars_of(string);
    let n = chars.len();
    let mut ret: Vec<String> = Vec::new();
    let mut field: Vec<char> = Vec::new();
    let ghost mut start: int = 0;
    let mut i: usize = 0;
    proof {
        assert(chars@.skip(0) == chars@);
        assert(ret.deep_view() + split_fields(chars@, sep) == split_fields(chars@, sep));
    }
    while i < n
        invariant
            n == chars.len(),
            chars@ == string@,
            0 <= start <= i <= n,
            forall|j: int| start <= j < i ==> !splits_at(chars@, sep, j),
            start > 0 ==> splits_at(chars@, sep, start - 1),
            field@ == unescape(chars@.subrange(start, i as int), sep),
            split_fields(chars@, sep) == ret.deep_view() + split_fields(chars@.skip(start), sep),
        decreases n - i,
    {
        let c = chars[i];
        let ghost seg = chars@.subrange(start, i as int);
        let ghost grown = chars@.subrange(start, i + 1);
        proof {
            assert(grown.drop_last() == seg);
            assert(grown.last() == c);
        }
        if c != sep {
            field.push(c);
        } else if sep != ESCAPE && i > 0 && chars[i - 1] == ESCAPE {
            proof {
                // The marker is no separator, so it belongs to the open field.
                assert(start < i);
                assert(seg.last() == ESCAPE);
                assert(grown.drop_last().drop_last() == seg.drop_last());
            }
            field.pop();
            field.push(sep);
        } else {
            proof {
                let rest = chars@.skip(start);
                assert forall|j: int| 0 <= j < i - start implies !splits_at(rest, sep, j) by {
                    assert(!splits_at(chars@, sep, start + j));
                }
                assert(splits_at(rest, sep, i - start));
                lemma_next_split_is(rest, sep, 0, i - start);
                assert(rest.take(i - start) == seg);
                assert(rest.skip(i - start + 1) == chars@.skip(i + 1));
                assert(chars@.subrange(i + 1, i + 1) == Seq::<char>::empty());
            }
            let done = string_of(&field);
            let ghost before = ret.deep_view();
            ret.push(done);
            proof {
                assert(ret.deep_view() == before.push(field@));
                start = i + 1;
            }
            field = Vec::new();
        }
        i += 1;
    }
    proof {
        let rest = chars@.skip(start);
        assert(rest == chars@.subrange(start, n as int));
        assert forall|j: int| 0 <= j < rest.len() implies !splits_at(rest, sep, j) by {
            assert(!splits_at(chars@, sep, start + j));
        }
        lemma_next_split_is(rest, sep, 0, rest.len() as int);
    }
    let done = string_of(&field);
    let ghost before = ret.deep_view();
    ret.push(done);
    proof {
        assert(ret.deep_view() == before.push(field@));
    }
    ret
}

} // verus!
