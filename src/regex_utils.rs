//! Scoping of named capture groups in composed patterns: only names of
//! groups opened at the top level stay.

use vstd::prelude::*;
use crate::text::{
    chars_of, find, find_char, lemma_find_facts, lemma_find_none, lemma_find_some, next_piece, split,
    string_of,
};
use crate::utils::count_of;

verus! {

/// `t` starts with `?P<`, as the text after the `(` of a named group does.
pub open spec fn starts_name(t: Seq<char>) -> bool {
    t.len() >= 3 && t[0] == '?' && t[1] == 'P' && t[2] == '<'
}

/// `t` with its leading `?P<name>` removed, where it has one.
pub open spec fn strip_name(t: Seq<char>) -> Seq<char> {
    if starts_name(t) && find(t, '>') is Some {
        t.skip(find(t, '>').unwrap() + 1)
    } else {
        t
    }
}

/// The pieces `p` that follow one another around `(`, the first at nesting
/// depth `depth`; a name is kept only at depth 1.
pub open spec fn scope_pieces(p: Seq<Seq<char>>, depth: int) -> Seq<Seq<char>>
    decreases p.len(),
{
    if p.len() == 0 {
        p
    } else {
        let t = p[0];
        let u = if depth != 1 {
            strip_name(t)
        } else {
            t
        };
        seq![u] + scope_pieces(p.drop_first(), depth - count_of(t, ')') + 1)
    }
}

/// The pieces `p` joined with `c` between them.
pub open spec fn join(p: Seq<Seq<char>>, c: char) -> Seq<char>
    decreases p.len(),
{
    if p.len() == 0 {
        Seq::empty()
    } else if p.len() == 1 {
        p[0]
    } else {
        p[0] + seq![c] + join(p.drop_first(), c)
    }
}

/// `s` with the names of all groups but the top-level ones removed.
pub open spec fn scoped(s: Seq<char>) -> Seq<char> {
    join(scope_pieces(split(s, '('), 0), '(')
}

fn count_in(v: &Vec<char>, a: usize, b: usize, c: char) -> (r: usize)
    requires
        a <= b <= v.len(),
    ensures
        r == count_of(v@.subrange(a as int, b as int), c),
        0 <= r <= b - a,
{
    let mut n: usize = 0;
    let mut i = a;
    while i < b
        invariant
            a <= i <= b <= v.len(),
            n == count_of(v@.subrange(a as int, i as int), c),
            0 <= n <= i - a,
        decreases b - i,
    {
        assert(v@.subrange(a as int, i + 1).drop_last() =~= v@.subrange(a as int, i as int));
        if v[i] == c {
            n = n + 1;
        }
        i += 1;
    }
    n
}

/// Removes the names of capture groups nested two or more groups deep, so
/// that in a pattern composed of others only the top-level fields can be
/// looked up by name.
pub fn filter_inner_capture_group_names(regex: &str) -> (r: String)
    ensures
        r@ == scoped(regex@),
{
    let v = chars_of(regex);
    let ghost p = split(v@, '(');
    assert(v@.skip(0) =~= v@);
    let mut out: Vec<char> = Vec::new();
    let mut a: usize = 0;
    let mut first = true;
    let mut depth: i128 = 0;
    let ghost mut done: Seq<Seq<char>> = Seq::empty();
    assert(p.skip(0) =~= p);
    assert(done + scope_pieces(p, 0) =~= scope_pieces(p, 0));
    loop
        invariant
            a <= v.len(),
            v@ == regex@,
            p == split(v@, '('),
            first == (done.len() == 0),
            first ==> a == 0 && depth == 0,
            done.len() <= a,
            done.len() < p.len(),
            -(a as int) <= depth <= a + 1,
            split(v@.skip(a as int), '(') == p.skip(done.len() as int),
            done + scope_pieces(p.skip(done.len() as int), depth as int) == scope_pieces(p, 0),
            out@ == join(done, '('),
        decreases v.len() - a,
    {
        let (b, next) = next_piece(&v, a, '(');
        let ghost t = v@.subrange(a as int, b as int);
        assert(p.skip(done.len() as int)[0] == t);
        let named = b - a >= 3 && v[a] == '?' && v[a + 1] == 'P' && v[a + 2] == '<';
        let mut from = a;
        if depth != 1 && named {
            assert(t[0] == v@[a as int] && t[1] == v@[a + 1] && t[2] == v@[a + 2]);
            match find_char(&v, a, b, '>') {
                Some(e) => {
                    from = e + 1;
                    assert(t.skip(e - a + 1) =~= v@.subrange(e + 1, b as int));
                },
                None => {},
            }
        } else if depth != 1 {
            assert(!starts_name(t)) by {
                if t.len() >= 3 {
                    assert(t[0] == v@[a as int] && t[1] == v@[a + 1] && t[2] == v@[a + 2]);
                }
            }
        }
        let ghost u = v@.subrange(from as int, b as int);
        let ghost k = done.len() as int;
        let ghost rest = p.skip(k);
        assert(rest.len() >= 1);
        assert(rest.drop_first() =~= p.skip(k + 1));
        if !first {
            out.push('(');
        }
        let mut i = from;
        while i < b
            invariant
                from <= i <= b <= v.len(),
                out@ == join(done, '(') + (if first { Seq::empty() } else { seq!['('] }) + v@.subrange(
                    from as int,
                    i as int,
                ),
            decreases b - i,
        {
            out.push(v[i]);
            i += 1;
        }
        let closes = count_in(&v, a, b, ')');

        proof {
            lemma_join_push(done, u, '(');
            assert(seq![u] + scope_pieces(rest.drop_first(), depth - closes + 1) == scope_pieces(
                rest,
                depth as int,
            ));
            assert(done.push(u) + scope_pieces(rest.drop_first(), depth - closes + 1) =~= done
                + scope_pieces(rest, depth as int));
            done = done.push(u);
        }
        depth = depth - (closes as i128) + 1;
        first = false;
        match next {
            None => {
                assert(rest.drop_first().len() == 0);
                assert(done + scope_pieces(rest.drop_first(), depth as int) =~= done);
                return string_of(out);
            },
            Some(n) => {
                a = n;
            },
        }
    }
}

proof fn lemma_join_push(p: Seq<Seq<char>>, u: Seq<char>, c: char)
    ensures
        join(p.push(u), c) == join(p, c) + (if p.len() == 0 {
            Seq::empty()
        } else {
            seq![c]
        }) + u,
    decreases p.len(),
{
    assert(join(seq![u], c) == u);
    if p.len() == 0 {
        assert(p.push(u) =~= seq![u]);
        assert(Seq::<char>::empty() + Seq::<char>::empty() + u =~= u);
    } else if p.len() == 1 {
        assert(p.push(u).drop_first() =~= seq![u]);
        assert(join(p, c) == p[0]);
        assert(p.push(u)[0] == p[0]);
    } else {
        assert(p.push(u).drop_first() =~= p.drop_first().push(u));
        lemma_join_push(p.drop_first(), u, c);
        assert(p[0] + seq![c] + (join(p.drop_first(), c) + seq![c] + u) =~= p[0] + seq![c] + join(
            p.drop_first(),
            c,
        ) + seq![c] + u);
    }
}

/// A piece that starts a name closes it with `>`, the name holds no `)`,
/// and no second name follows right after it.
pub open spec fn name_ok(t: Seq<char>) -> bool {
    starts_name(t) ==> {
        &&& find(t, '>') is Some
        &&& count_of(t.take(find(t, '>').unwrap() + 1), ')') == 0
        &&& !starts_name(strip_name(t))
    }
}

/// Every named group of `s` is written as `name_ok` asks.
pub open spec fn names_ok(s: Seq<char>) -> bool {
    forall|i: int| 0 <= i < split(s, '(').len() ==> name_ok(#[trigger] split(s, '(')[i])
}

/// The nesting depth at which piece `i` of `p` starts, the first at `depth`.
pub open spec fn depth_at(p: Seq<Seq<char>>, depth: int, i: int) -> int
    decreases i,
{
    if i <= 0 {
        depth
    } else {
        depth_at(p, depth, i - 1) - count_of(p[i - 1], ')') + 1
    }
}

proof fn lemma_count_concat(a: Seq<char>, b: Seq<char>, c: char)
    ensures
        count_of(a + b, c) == count_of(a, c) + count_of(b, c),
    decreases b.len(),
{
    if b.len() == 0 {
        assert(a + b =~= a);
    } else {
        assert((a + b).drop_last() =~= a + b.drop_last());
        assert((a + b).last() == b.last());
        lemma_count_concat(a, b.drop_last(), c);
    }
}

proof fn lemma_split_pieces_free(s: Seq<char>, c: char)
    ensures
        split(s, c).len() >= 1,
        forall|i: int, j: int|
            0 <= i < split(s, c).len() && 0 <= j < split(s, c)[i].len() ==> #[trigger] split(s, c)[i][j]
                != c,
    decreases s.len(),
{
    lemma_find_facts(s, c);
    match find(s, c) {
        None => {},
        Some(k) => {
            lemma_split_pieces_free(s.skip(k + 1), c);
            let p = split(s, c);
            assert forall|i: int, j: int| 0 <= i < p.len() && 0 <= j < p[i].len() implies #[trigger] p[i][j]
                != c by {
                if i > 0 {
                    assert(p[i] == split(s.skip(k + 1), c)[i - 1]);
                }
            }
        },
    }
}

proof fn lemma_split_join(q: Seq<Seq<char>>, c: char)
    requires
        q.len() >= 1,
        forall|i: int, j: int| 0 <= i < q.len() && 0 <= j < q[i].len() ==> #[trigger] q[i][j] != c,
    ensures
        split(join(q, c), c) == q,
    decreases q.len(),
{
    if q.len() == 1 {
        assert forall|j: int| 0 <= j < q[0].len() implies q[0][j] != c by {}
        lemma_find_none(q[0], c);
        assert(split(q[0], c) =~= q);
    } else {
        let t = q.drop_first();
        assert forall|i: int, j: int| 0 <= i < t.len() && 0 <= j < t[i].len() implies #[trigger] t[i][j]
            != c by {
            assert(t[i] == q[i + 1]);
        }
        lemma_split_join(t, c);
        let s = join(q, c);
        let k = q[0].len() as int;
        assert(s == q[0] + seq![c] + join(t, c));
        assert forall|j: int| 0 <= j < k implies s[j] != c by {
            assert(s[j] == q[0][j]);
        }
        lemma_find_some(s, c, k);
        assert(s.take(k) =~= q[0]);
        assert(s.skip(k + 1) =~= join(t, c));
        assert(seq![q[0]] + t =~= q);
    }
}

proof fn lemma_strip_name(t: Seq<char>)
    requires
        name_ok(t),
    ensures
        count_of(strip_name(t), ')') == count_of(t, ')'),
        forall|j: int| 0 <= j < strip_name(t).len() ==> #[trigger] strip_name(t)[j] == t[j + (t.len()
            - strip_name(t).len())],
        strip_name(t).len() <= t.len(),
        strip_name(strip_name(t)) == strip_name(t),
{
    if starts_name(t) && find(t, '>') is Some {
        let e = find(t, '>').unwrap();
        lemma_find_facts(t, '>');
        assert(t =~= t.take(e + 1) + t.skip(e + 1));
        lemma_count_concat(t.take(e + 1), t.skip(e + 1), ')');
    }
}

/// Piece `i` of `scope_pieces(p, depth)` is piece `i` of `p`, with its name
/// removed where it starts at a depth other than 1.
proof fn lemma_scope_pieces_at(p: Seq<Seq<char>>, depth: int, i: int)
    requires
        0 <= i < p.len(),
    ensures
        scope_pieces(p, depth).len() == p.len(),
        scope_pieces(p, depth)[i] == if depth_at(p, depth, i) != 1 {
            strip_name(p[i])
        } else {
            p[i]
        },
    decreases p.len(),
{
    lemma_scope_pieces_len(p, depth);
    if i > 0 {
        let t = p.drop_first();
        let d2 = depth - count_of(p[0], ')') + 1;
        lemma_scope_pieces_at(t, d2, i - 1);
        lemma_depth_at_shift(p, depth, i);
        assert(t[i - 1] == p[i]);
    }
}

proof fn lemma_scope_pieces_len(p: Seq<Seq<char>>, depth: int)
    ensures
        scope_pieces(p, depth).len() == p.len(),
    decreases p.len(),
{
    if p.len() > 0 {
        lemma_scope_pieces_len(p.drop_first(), depth - count_of(p[0], ')') + 1);
    }
}

proof fn lemma_depth_at_shift(p: Seq<Seq<char>>, depth: int, i: int)
    requires
        1 <= i <= p.len(),
    ensures
        depth_at(p, depth, i) == depth_at(p.drop_first(), depth - count_of(p[0], ')') + 1, i - 1),
    decreases i,
{
    if i > 1 {
        lemma_depth_at_shift(p, depth, i - 1);
        assert(p.drop_first()[i - 2] == p[i - 1]);
    } else {
        assert(depth_at(p, depth, 0) == depth);
        assert(depth_at(p.drop_first(), depth - count_of(p[0], ')') + 1, 0) == depth - count_of(
            p[0],
            ')',
        ) + 1);
    }
}

proof fn lemma_scope_pieces_stable(p: Seq<Seq<char>>, depth: int)
    requires
        forall|i: int| 0 <= i < p.len() ==> name_ok(#[trigger] p[i]),
    ensures
        scope_pieces(scope_pieces(p, depth), depth) == scope_pieces(p, depth),
    decreases p.len(),
{
    if p.len() > 0 {
        let t = p[0];
        assert(name_ok(p[0]));
        lemma_strip_name(t);
        let q = scope_pieces(p, depth);
        let u = q[0];
        assert(count_of(u, ')') == count_of(t, ')'));
        let d2 = depth - count_of(t, ')') + 1;
        assert forall|i: int| 0 <= i < p.drop_first().len() implies name_ok(#[trigger] p.drop_first()[i]) by {
            assert(p.drop_first()[i] == p[i + 1]);
        }
        lemma_scope_pieces_stable(p.drop_first(), d2);
        assert(q.drop_first() == scope_pieces(p.drop_first(), d2));
        assert(scope_pieces(q, depth) =~= q);
    }
}

proof fn lemma_scoped_pieces(s: Seq<char>)
    ensures
        split(scoped(s), '(') == scope_pieces(split(s, '('), 0),
{
    let p = split(s, '(');
    let q = scope_pieces(p, 0);
    lemma_split_pieces_free(s, '(');
    lemma_scope_pieces_len(p, 0);
    assert forall|i: int, j: int| 0 <= i < q.len() && 0 <= j < q[i].len() implies #[trigger] q[i][j]
        != '(' by {
        lemma_scope_pieces_at(p, 0, i);
        if depth_at(p, 0, i) != 1 && starts_name(p[i]) && find(p[i], '>') is Some {
            let e = find(p[i], '>').unwrap();
            lemma_find_facts(p[i], '>');
            assert(q[i][j] == p[i][j + e + 1]);
        } else {
            assert(q[i][j] == p[i][j]);
        }
    }
    lemma_split_join(q, '(');
}

/// On patterns whose names are well formed, removing the inner names a
/// second time changes nothing.
pub proof fn lemma_scoped_idempotent(s: Seq<char>)
    requires
        names_ok(s),
    ensures
        scoped(scoped(s)) == scoped(s),
{
    let p = split(s, '(');
    lemma_scoped_pieces(s);
    assert forall|i: int| 0 <= i < p.len() implies name_ok(#[trigger] p[i]) by {}
    lemma_scope_pieces_stable(p, 0);
}

/// Around each `(` the result is cut as the input is. A group opened at
/// the top level (depth 1) keeps its text, name included; a group opened
/// deeper starts with no name where the input's names are well formed.
pub proof fn lemma_scoped_names(s: Seq<char>, i: int)
    requires
        0 <= i < split(s, '(').len(),
    ensures
        split(scoped(s), '(').len() == split(s, '(').len(),
        depth_at(split(s, '('), 0, i) == 1 ==> split(scoped(s), '(')[i] == split(s, '(')[i],
        depth_at(split(s, '('), 0, i) != 1 && names_ok(s) ==> !starts_name(split(scoped(s), '(')[i]),
{
    let p = split(s, '(');
    lemma_scoped_pieces(s);
    lemma_scope_pieces_at(p, 0, i);
    if names_ok(s) {
        assert(name_ok(p[i]));
        lemma_strip_name(p[i]);
    }
}

} // verus!
