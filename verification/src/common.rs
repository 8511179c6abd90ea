//! Normalized relative paths: `/`-separated, never starting or ending with a
//! separator, with component iteration, component-wise ordering and
//! common-ancestor computation.

use core::cmp::Ordering;
use vstd::prelude::*;
use vstd::string::StrSliceExecFns;
use vstd::string::StringExecFns;

verus! {

/// The path separator.
pub open spec fn sep() -> char {
    '/'
}

/// Index of the first separator in `s`, or `s.len()` if `s` has none.
pub open spec fn first_sep(s: Seq<char>) -> int
    decreases s.len(),
{
    if s.len() == 0 {
        0
    } else if s[0] == sep() {
        0
    } else {
        1 + first_sep(s.drop_first())
    }
}

pub proof fn lemma_first_sep(s: Seq<char>)
    ensures
        0 <= first_sep(s) <= s.len(),
        first_sep(s) < s.len() ==> s[first_sep(s)] == sep(),
        forall|j: int| 0 <= j < first_sep(s) ==> s[j] != sep(),
    decreases s.len(),
{
    if s.len() == 0 {
    } else if s[0] == sep() {
    } else {
        lemma_first_sep(s.drop_first());
        assert forall|j: int| 0 <= j < first_sep(s) implies s[j] != sep() by {
            if j >= 1 {
                assert(s.drop_first()[j - 1] == s[j]);
            }
        }
    }
}

/// `first_sep` is pinned by its characteristic properties.
pub proof fn lemma_first_sep_is(s: Seq<char>, k: int)
    requires
        0 <= k <= s.len(),
        forall|j: int| 0 <= j < k ==> s[j] != sep(),
        k < s.len() ==> s[k] == sep(),
    ensures
        first_sep(s) == k,
    decreases s.len(),
{
    if s.len() == 0 {
    } else if s[0] == sep() {
        assert(k == 0);
    } else {
        assert(k >= 1);
        lemma_first_sep_is(s.drop_first(), k - 1);
    }
}

#[via_fn]
proof fn components_from_decreases(s: Seq<char>, i: int) {
    if 0 <= i < s.len() {
        lemma_first_sep(s.subrange(i, s.len() as int));
    }
}

/// The sequence of components of `s` that remain when iteration has reached
/// character position `i`: the text from `i` up to the next separator, then
/// the components after that separator.
pub open spec fn components_from(s: Seq<char>, i: int) -> Seq<Seq<char>>
    decreases s.len() - i,
    via components_from_decreases
{
    if !(0 <= i < s.len()) {
        Seq::empty()
    } else {
        let k = i + first_sep(s.subrange(i, s.len() as int));
        if k >= s.len() {
            seq![s.subrange(i, s.len() as int)]
        } else {
            seq![s.subrange(i, k)] + components_from(s, k + 1)
        }
    }
}

/// The `/`-separated components of `s`; the empty string has none.
pub open spec fn path_components(s: Seq<char>) -> Seq<Seq<char>> {
    components_from(s, 0)
}

/// Joins components with a single separator between each pair.
pub open spec fn join_components(cs: Seq<Seq<char>>) -> Seq<char>
    decreases cs.len(),
{
    if cs.len() == 0 {
        Seq::empty()
    } else if cs.len() == 1 {
        cs[0]
    } else {
        cs[0] + seq![sep()] + join_components(cs.drop_first())
    }
}

/// A component that contains no separator.
pub open spec fn sep_free(c: Seq<char>) -> bool {
    forall|j: int| 0 <= j < c.len() ==> c[j] != sep()
}

/// Every component in the sequence is free of separators.
pub open spec fn all_sep_free(cs: Seq<Seq<char>>) -> bool {
    forall|t: int| 0 <= t < cs.len() ==> sep_free(#[trigger] cs[t])
}

/// Every component in the sequence is nonempty.
pub open spec fn components_nonempty(cs: Seq<Seq<char>>) -> bool {
    forall|t: int| 0 <= t < cs.len() ==> (#[trigger] cs[t]).len() > 0
}

/// Structural facts about the remaining components: there are none exactly
/// when the position is past the text, and none of them contains a separator.
pub proof fn lemma_components_from_props(s: Seq<char>, i: int)
    ensures
        (components_from(s, i).len() == 0) == !(0 <= i < s.len()),
        all_sep_free(components_from(s, i)),
    decreases s.len() - i,
{
    if 0 <= i < s.len() {
        let sub = s.subrange(i, s.len() as int);
        lemma_first_sep(sub);
        let k = i + first_sep(sub);
        if k >= s.len() {
            assert forall|j: int| 0 <= j < sub.len() implies sub[j] != sep() by {}
            assert(sep_free(s.subrange(i, s.len() as int)));
            assert(all_sep_free(components_from(s, i)));
        } else {
            lemma_components_from_props(s, k + 1);
            let head = s.subrange(i, k);
            assert(sep_free(head)) by {
                assert forall|j: int| 0 <= j < head.len() implies head[j] != sep() by {
                    assert(sub[j] != sep());
                }
            }
            let rest = components_from(s, k + 1);
            assert forall|t: int| 0 <= t < components_from(s, i).len() implies sep_free(
                #[trigger] components_from(s, i)[t],
            ) by {
                if t == 0 {
                    assert(components_from(s, i)[0] == head);
                } else {
                    assert(components_from(s, i)[t] == rest[t - 1]);
                }
            }
        }
    }
}

/// Joining the components remaining from position `i` rebuilds the text from
/// `i` on, provided the text does not end with a separator.
pub proof fn lemma_components_from_join(s: Seq<char>, i: int)
    requires
        0 <= i <= s.len(),
        s.len() > 0 ==> s[s.len() - 1] != sep(),
    ensures
        join_components(components_from(s, i)) == s.subrange(i, s.len() as int),
    decreases s.len() - i,
{
    let n = s.len() as int;
    if i == n {
        assert(components_from(s, i).len() == 0);
        assert(join_components(components_from(s, i)) =~= s.subrange(i, n));
    } else {
        let sub = s.subrange(i, n);
        lemma_first_sep(sub);
        let k = i + first_sep(sub);
        if k >= n {
            assert(join_components(components_from(s, i)) == s.subrange(i, n));
        } else {
            assert(s[k] == sep());
            assert(k + 1 < n);
            lemma_components_from_join(s, k + 1);
            let head = s.subrange(i, k);
            let rest = components_from(s, k + 1);
            assert(rest.len() >= 1) by {
                lemma_components_from_props(s, k + 1);
            }
            let whole = seq![head] + rest;
            assert(components_from(s, i) == whole);
            assert(whole[0] == head);
            assert(whole.drop_first() =~= rest);
            assert(join_components(whole) == head + seq![sep()] + join_components(rest));
            assert(head + seq![sep()] + s.subrange(k + 1, n) =~= s.subrange(i, n));
        }
    }
}

/// Round trip: the components of a valid path string, joined with `/`,
/// reproduce the string exactly.
pub proof fn lemma_join_components_round_trip(s: Seq<char>)
    requires
        is_valid_path_str(s),
    ensures
        join_components(path_components(s)) == s,
{
    lemma_components_from_join(s, 0);
    assert(s.subrange(0, s.len() as int) =~= s);
}

/// Appending one component to a join adds one separator and the component.
pub proof fn lemma_join_push(cs: Seq<Seq<char>>, c: Seq<char>)
    ensures
        cs.len() == 0 ==> join_components(cs.push(c)) == c,
        cs.len() > 0 ==> join_components(cs.push(c)) == join_components(cs) + seq![sep()] + c,
    decreases cs.len(),
{
    let p = cs.push(c);
    if cs.len() == 0 {
        assert(p.len() == 1);
        assert(p[0] == c);
    } else if cs.len() == 1 {
        assert(p.len() == 2);
        assert(p[0] == cs[0]);
        assert(p.drop_first() =~= seq![c]);
        assert(join_components(seq![c]) == c);
    } else {
        assert(p.drop_first() =~= cs.drop_first().push(c));
        lemma_join_push(cs.drop_first(), c);
        assert(join_components(p) == cs[0] + seq![sep()] + (join_components(cs.drop_first())
            + seq![sep()] + c));
        assert(cs[0] + seq![sep()] + (join_components(cs.drop_first()) + seq![sep()] + c) =~= (
        cs[0] + seq![sep()] + join_components(cs.drop_first())) + seq![sep()] + c);
    }
}

/// Joining a concatenation of two nonempty sequences inserts one separator
/// between their joins.
pub proof fn lemma_join_concat(x: Seq<Seq<char>>, y: Seq<Seq<char>>)
    requires
        x.len() > 0,
        y.len() > 0,
    ensures
        join_components(x + y) == join_components(x) + seq![sep()] + join_components(y),
    decreases x.len(),
{
    if x.len() == 1 {
        assert((x + y).len() >= 2);
        assert((x + y)[0] == x[0]);
        assert((x + y).drop_first() =~= y);
        assert(join_components(x) == x[0]);
    } else {
        assert((x + y)[0] == x[0]);
        assert((x + y).drop_first() =~= x.drop_first() + y);
        lemma_join_concat(x.drop_first(), y);
        assert(join_components(x + y) == x[0] + seq![sep()] + (join_components(x.drop_first())
            + seq![sep()] + join_components(y)));
        assert(x[0] + seq![sep()] + (join_components(x.drop_first()) + seq![sep()]
            + join_components(y)) =~= (x[0] + seq![sep()] + join_components(x.drop_first()))
            + seq![sep()] + join_components(y));
    }
}

/// A join splits at any interior component boundary.
pub proof fn lemma_join_take_skip(cs: Seq<Seq<char>>, m: int)
    requires
        0 < m < cs.len(),
    ensures
        join_components(cs) == join_components(cs.take(m)) + seq![sep()] + join_components(
            cs.skip(m),
        ),
{
    assert(cs.take(m) + cs.skip(m) =~= cs);
    lemma_join_concat(cs.take(m), cs.skip(m));
}

/// Components taken from a later position are the components of the suffix.
pub proof fn lemma_components_from_shift(s: Seq<char>, i: int)
    requires
        0 <= i <= s.len(),
    ensures
        components_from(s, i) == path_components(s.subrange(i, s.len() as int)),
    decreases s.len() - i,
{
    let n = s.len() as int;
    let t = s.subrange(i, n);
    if i == n {
        assert(components_from(s, i) =~= path_components(t));
    } else {
        assert(t.subrange(0, t.len() as int) =~= t);
        let f = first_sep(t);
        lemma_first_sep(t);
        let k = i + f;
        if k >= n {
            assert(components_from(s, i) == seq![s.subrange(i, n)]);
            assert(path_components(t) == seq![t.subrange(0, t.len() as int)]);
            assert(t.subrange(0, t.len() as int) =~= s.subrange(i, n));
            assert(components_from(s, i) == path_components(t));
        } else {
            lemma_components_from_shift(s, k + 1);
            lemma_components_from_shift(t, f + 1);
            assert(t.subrange(f + 1, t.len() as int) =~= s.subrange(k + 1, n));
            assert(t.subrange(0, f) =~= s.subrange(i, k));
            assert(components_from(s, i) == seq![s.subrange(i, k)] + path_components(
                s.subrange(k + 1, n),
            ));
            assert(path_components(t) == seq![t.subrange(0, f)] + components_from(t, f + 1));
            assert(components_from(s, i) == path_components(t));
        }
    }
}

/// Where iteration stands once the first `j` components of a valid path
/// have been consumed: at the start for `j == 0`, otherwise one past the
/// character offset of the `j`-component prefix; the remaining components
/// are exactly the rest.
pub proof fn lemma_components_from_at(s: Seq<char>, j: int)
    requires
        is_valid_path_str(s),
        0 <= j <= path_components(s).len(),
    ensures
        components_from(
            s,
            if j == 0 {
                0int
            } else {
                join_components(path_components(s).take(j)).len() as int + 1
            },
        ) == path_components(s).skip(j),
    decreases j,
{
    let pc = path_components(s);
    let n = s.len() as int;
    if j == 0 {
        assert(pc.skip(0) =~= pc);
    } else {
        lemma_components_from_at(s, j - 1);
        let idx_prev = if j - 1 == 0 {
            0int
        } else {
            join_components(pc.take(j - 1)).len() as int + 1
        };
        assert(components_from(s, idx_prev) == pc.skip(j - 1));
        assert(pc.skip(j - 1).len() >= 1);
        assert(0 <= idx_prev < n) by {
            lemma_components_from_props(s, idx_prev);
        }
        let sub = s.subrange(idx_prev, n);
        lemma_first_sep(sub);
        let k = idx_prev + first_sep(sub);
        let lj = join_components(pc.take(j)).len() as int;
        assert(pc.take(j - 1).push(pc[j - 1]) =~= pc.take(j));
        lemma_join_push(pc.take(j - 1), pc[j - 1]);
        assert(pc.skip(j - 1)[0] == pc[j - 1]);
        if k >= n {
            assert(components_from(s, idx_prev) == seq![s.subrange(idx_prev, n)]);
            assert(pc.skip(j - 1).len() == 1);
            assert(j == pc.len());
            assert(s.subrange(idx_prev, n) == pc[j - 1]);
            assert(pc[j - 1].len() == n - idx_prev);
            if j - 1 == 0 {
                assert(join_components(pc.take(1)) == pc[0]);
                assert(lj == n);
            } else {
                assert(join_components(pc.take(j)) == join_components(pc.take(j - 1))
                    + seq![sep()] + pc[j - 1]);
                assert(lj == (idx_prev - 1) + 1 + (n - idx_prev));
            }
            assert(components_from(s, lj + 1) =~= pc.skip(j));
        } else {
            assert(components_from(s, idx_prev) == seq![s.subrange(idx_prev, k)]
                + components_from(s, k + 1));
            assert(s.subrange(idx_prev, k) == pc[j - 1]);
            assert(pc[j - 1].len() == k - idx_prev);
            assert(components_from(s, k + 1) =~= pc.skip(j - 1).drop_first());
            assert(pc.skip(j - 1).drop_first() =~= pc.skip(j));
            if j - 1 == 0 {
                assert(join_components(pc.take(1)) == pc[0]);
                assert(lj == k);
            } else {
                assert(join_components(pc.take(j)) == join_components(pc.take(j - 1))
                    + seq![sep()] + pc[j - 1]);
                assert(lj == (idx_prev - 1) + 1 + (k - idx_prev));
            }
            assert(components_from(s, lj + 1) == pc.skip(j));
        }
    }
}

/// Joining nonempty, separator-free components and then splitting gives the
/// components back.
pub proof fn lemma_components_of_join(x: Seq<Seq<char>>)
    requires
        all_sep_free(x),
        components_nonempty(x),
    ensures
        path_components(join_components(x)) == x,
    decreases x.len(),
{
    let s = join_components(x);
    if x.len() == 0 {
        assert(path_components(s) =~= x);
    } else if x.len() == 1 {
        assert(s == x[0]);
        assert(s.len() > 0);
        lemma_first_sep_is(s.subrange(0, s.len() as int), s.len() as int);
        assert(path_components(s) == seq![s.subrange(0, s.len() as int)]);
        assert(s.subrange(0, s.len() as int) =~= x[0]);
        assert(path_components(s) =~= x);
    } else {
        let c0 = x[0];
        let x1 = x.drop_first();
        assert(seq![c0] + x1 =~= x);
        lemma_join_concat(seq![c0], x1);
        assert(join_components(seq![c0]) == c0);
        assert(s == c0 + seq![sep()] + join_components(x1));
        let n = s.len() as int;
        let m = c0.len() as int;
        assert(m < n);
        assert(s[m] == sep());
        assert forall|j: int| 0 <= j < m implies s.subrange(0, n)[j] != sep() by {
            assert(s[j] == c0[j]);
        }
        assert(s.subrange(0, n)[m] == sep());
        assert(s.subrange(0, n).len() == n);
        lemma_first_sep_is(s.subrange(0, n), m);
        assert(path_components(s) == seq![s.subrange(0, m)] + components_from(s, m + 1));
        lemma_components_from_shift(s, m + 1);
        assert(s.subrange(m + 1, n) =~= join_components(x1));
        lemma_components_of_join(x1);
        assert(s.subrange(0, m) =~= c0);
        assert(path_components(s) =~= x);
    }
}

/// The number of leading components shared by two component sequences.
pub open spec fn common_count(a: Seq<Seq<char>>, b: Seq<Seq<char>>) -> int
    decreases a.len(),
{
    if a.len() == 0 || b.len() == 0 || a[0] != b[0] {
        0
    } else {
        1 + common_count(a.drop_first(), b.drop_first())
    }
}

pub proof fn lemma_common_count(a: Seq<Seq<char>>, b: Seq<Seq<char>>)
    ensures
        0 <= common_count(a, b) <= a.len(),
        common_count(a, b) <= b.len(),
        a.take(common_count(a, b)) == b.take(common_count(a, b)),
    decreases a.len(),
{
    let m = common_count(a, b);
    if a.len() == 0 || b.len() == 0 || a[0] != b[0] {
        assert(a.take(0) =~= b.take(0));
    } else {
        lemma_common_count(a.drop_first(), b.drop_first());
        let m1 = common_count(a.drop_first(), b.drop_first());
        assert forall|j: int| 0 <= j < m implies a.take(m)[j] == b.take(m)[j] by {
            if j > 0 {
                assert(a.drop_first().take(m1)[j - 1] == b.drop_first().take(m1)[j - 1]);
                assert(a.drop_first().take(m1)[j - 1] == a[j]);
                assert(b.drop_first().take(m1)[j - 1] == b[j]);
            }
        }
        assert(a.take(m) =~= b.take(m));
    }
}

/// `common_count` is pinned by its characteristic properties.
pub proof fn lemma_common_count_is(a: Seq<Seq<char>>, b: Seq<Seq<char>>, m: int)
    requires
        0 <= m <= a.len(),
        m <= b.len(),
        forall|j: int| 0 <= j < m ==> a[j] == b[j],
        m < a.len() && m < b.len() ==> a[m] != b[m],
    ensures
        common_count(a, b) == m,
    decreases a.len(),
{
    if a.len() == 0 || b.len() == 0 || a[0] != b[0] {
        assert(m == 0);
    } else {
        assert(m >= 1) by {
            assert(a.len() > 0 && b.len() > 0);
        }
        assert forall|j: int| 0 <= j < m - 1 implies a.drop_first()[j] == b.drop_first()[j] by {
            assert(a[j + 1] == b[j + 1]);
        }
        lemma_common_count_is(a.drop_first(), b.drop_first(), m - 1);
    }
}

pub proof fn lemma_common_count_sym(a: Seq<Seq<char>>, b: Seq<Seq<char>>)
    ensures
        common_count(a, b) == common_count(b, a),
    decreases a.len(),
{
    if !(a.len() == 0 || b.len() == 0 || a[0] != b[0]) {
        lemma_common_count_sym(a.drop_first(), b.drop_first());
    }
}

pub proof fn lemma_common_count_self(a: Seq<Seq<char>>)
    ensures
        common_count(a, a) == a.len(),
    decreases a.len(),
{
    if a.len() > 0 {
        lemma_common_count_self(a.drop_first());
    }
}

/// The longest shared sequence of whole components of two paths, compared
/// component by component, joined back into a path string.
pub open spec fn spec_common_ancestor(a: Seq<char>, b: Seq<char>) -> Seq<char> {
    join_components(
        path_components(a).take(common_count(path_components(a), path_components(b))),
    )
}

/// The character offset at which the common ancestor of `a` and `b` ends
/// within `a`: zero when nothing matches.
pub open spec fn ancestor_sep_index(a: Seq<char>, b: Seq<char>) -> int {
    spec_common_ancestor(a, b).len() as int
}

/// For a valid path the common ancestor is a literal prefix of the path,
/// ending right before a separator unless it is the whole path.
pub proof fn lemma_ancestor_prefix(a: Seq<char>, b: Seq<char>)
    requires
        is_valid_path_str(a),
    ensures
        0 <= ancestor_sep_index(a, b) <= a.len(),
        spec_common_ancestor(a, b) == a.subrange(0, ancestor_sep_index(a, b)),
        common_count(path_components(a), path_components(b)) < path_components(a).len()
            && ancestor_sep_index(a, b) > 0 ==> a[ancestor_sep_index(a, b)] == sep(),
{
    let ca = path_components(a);
    let cb = path_components(b);
    let m = common_count(ca, cb);
    lemma_common_count(ca, cb);
    lemma_join_components_round_trip(a);
    let anc = join_components(ca.take(m));
    if m == 0 {
        assert(ca.take(0) =~= Seq::<Seq<char>>::empty());
        assert(anc =~= a.subrange(0, 0));
    } else if m == ca.len() {
        assert(ca.take(m) =~= ca);
        assert(anc == a);
        assert(anc =~= a.subrange(0, a.len() as int));
    } else {
        lemma_join_take_skip(ca, m);
        assert(a == anc + seq![sep()] + join_components(ca.skip(m)));
        assert(anc.len() < a.len());
        assert(a[anc.len() as int] == sep());
        assert(anc =~= a.subrange(0, anc.len() as int));
    }
}

/// The common ancestor of any valid path with itself is the whole path.
pub proof fn lemma_common_ancestor_self(p: Seq<char>)
    requires
        is_valid_path_str(p),
    ensures
        spec_common_ancestor(p, p) == p,
{
    lemma_common_count_self(path_components(p));
    assert(path_components(p).take(path_components(p).len() as int) =~= path_components(p));
    lemma_join_components_round_trip(p);
}

/// Where component `j` of a valid path with nonempty components lies in the
/// text: between the prefix joins of lengths `j` and `j + 1`, with a
/// separator right after it unless it is the last component.
pub proof fn lemma_component_span(s: Seq<char>, j: int)
    requires
        is_valid_path_str(s),
        s.len() > 0,
        components_nonempty(path_components(s)),
        0 <= j < path_components(s).len(),
    ensures
        ({
            let pc = path_components(s);
            let lj = join_components(pc.take(j)).len() as int;
            let lj1 = join_components(pc.take(j + 1)).len() as int;
            &&& 0 <= lj
            &&& lj + 1 <= lj1 <= s.len()
            &&& (j + 1 < pc.len() ==> lj1 + 1 < s.len() && s[lj1] == sep())
            &&& (j + 1 == pc.len() ==> lj1 == s.len())
            &&& (forall|q: int| lj + 1 <= q < lj1 ==> s[q] != sep())
            &&& (j >= 1 ==> s[lj] == sep() && lj + 2 <= lj1)
            &&& first_sep(s.subrange(lj + 1, s.len() as int)) == lj1 - lj - 1
            &&& s.subrange(0, lj1) == join_components(pc.take(j + 1))
        }),
{
    let n = s.len() as int;
    let pc = path_components(s);
    lemma_components_from_props(s, 0);
    lemma_join_components_round_trip(s);
    let a = pc.take(j);
    let c = pc[j];
    assert(sep_free(c));
    assert(c.len() > 0);
    assert(pc.take(j + 1) =~= a.push(c));
    lemma_join_push(a, c);
    let lj = join_components(a).len() as int;
    let lj1 = join_components(pc.take(j + 1)).len() as int;
    if j == 0 {
        assert(a.len() == 0);
        assert(join_components(pc.take(1)) == c);
        assert(lj == 0 && lj1 == c.len());
    } else {
        assert(join_components(pc.take(j + 1)) == join_components(a) + seq![sep()] + c);
        assert(lj1 == lj + 1 + c.len());
        lemma_join_take_skip(pc, j);
        assert(s == join_components(a) + seq![sep()] + join_components(pc.skip(j)));
        assert(s[lj] == sep());
    }
    if j + 1 < pc.len() {
        lemma_join_take_skip(pc, j + 1);
        assert(s == join_components(pc.take(j + 1)) + seq![sep()] + join_components(
            pc.skip(j + 1),
        ));
        assert(lj1 < n);
        assert(s[lj1] == sep());
        assert(s[n - 1] != sep());
        assert(lj1 < n - 1);
    } else {
        assert(pc.take(j + 1) =~= pc);
        assert(lj1 == n);
    }
    assert forall|q: int| lj + 1 <= q < lj1 implies s[q] != sep() by {
        if j == 0 {
            assert(s[q] == c[q]) by {
                if 1 <= q < c.len() {
                    if j + 1 < pc.len() {
                        assert(s[q] == (join_components(pc.take(j + 1)) + seq![sep()]
                            + join_components(pc.skip(j + 1)))[q]);
                    }
                }
            }
        } else {
            assert(s[q] == c[q - lj - 1]) by {
                assert(s == join_components(pc.take(j + 1)) + (if j + 1 < pc.len() {
                    seq![sep()] + join_components(pc.skip(j + 1))
                } else {
                    Seq::<char>::empty()
                }));
            }
        }
    }
    let sub = s.subrange(lj + 1, n);
    assert forall|q: int| 0 <= q < lj1 - lj - 1 implies sub[q] != sep() by {
        assert(sub[q] == s[lj + 1 + q]);
    }
    if lj1 < n {
        assert(sub[lj1 - lj - 1] == s[lj1]);
    }
    lemma_first_sep_is(sub, lj1 - lj - 1);
    if j + 1 < pc.len() {
        assert(s.subrange(0, lj1) =~= join_components(pc.take(j + 1)));
    } else {
        assert(s.subrange(0, lj1) =~= join_components(pc.take(j + 1)));
    }
}

/// Taking a prefix of a component sequence keeps its components free of
/// separators and nonempty.
pub proof fn lemma_take_props(cs: Seq<Seq<char>>, k: int)
    requires
        0 <= k <= cs.len(),
        all_sep_free(cs),
        components_nonempty(cs),
    ensures
        all_sep_free(cs.take(k)),
        components_nonempty(cs.take(k)),
{
    assert forall|t: int| 0 <= t < cs.take(k).len() implies sep_free(#[trigger] cs.take(k)[t])
        && cs.take(k)[t].len() > 0 by {
        assert(cs.take(k)[t] == cs[t]);
    }
}

/// Lexicographic comparison of raw character sequences.
pub open spec fn cmp_char_seqs(x: Seq<char>, y: Seq<char>) -> Ordering
    decreases x.len(),
{
    if x.len() == 0 && y.len() == 0 {
        Ordering::Equal
    } else if x.len() == 0 {
        Ordering::Less
    } else if y.len() == 0 {
        Ordering::Greater
    } else if x[0] == y[0] {
        cmp_char_seqs(x.drop_first(), y.drop_first())
    } else if (x[0] as u32) < (y[0] as u32) {
        Ordering::Less
    } else {
        Ordering::Greater
    }
}

/// Lexicographic comparison of component sequences, each component compared
/// as a character sequence.
pub open spec fn cmp_components(a: Seq<Seq<char>>, b: Seq<Seq<char>>) -> Ordering
    decreases a.len(),
{
    if a.len() == 0 && b.len() == 0 {
        Ordering::Equal
    } else if a.len() == 0 {
        Ordering::Less
    } else if b.len() == 0 {
        Ordering::Greater
    } else {
        match cmp_char_seqs(a[0], b[0]) {
            Ordering::Equal => cmp_components(a.drop_first(), b.drop_first()),
            o => o,
        }
    }
}

pub proof fn lemma_cmp_char_seqs_refl(c: Seq<char>)
    ensures
        cmp_char_seqs(c, c) == Ordering::Equal,
    decreases c.len(),
{
    if c.len() > 0 {
        lemma_cmp_char_seqs_refl(c.drop_first());
    }
}

/// A proper prefix of a component sequence sorts strictly before it.
pub proof fn lemma_cmp_components_prefix(a: Seq<Seq<char>>, k: int)
    requires
        0 <= k <= a.len(),
    ensures
        cmp_components(a, a.take(k)) == if k == a.len() {
            Ordering::Equal
        } else {
            Ordering::Greater
        },
    decreases a.len(),
{
    let b = a.take(k);
    if a.len() == 0 {
    } else if k == 0 {
        assert(b.len() == 0);
    } else {
        assert(b[0] == a[0]);
        lemma_cmp_char_seqs_refl(a[0]);
        assert(a.take(k).drop_first() =~= a.drop_first().take(k - 1));
        lemma_cmp_components_prefix(a.drop_first(), k - 1);
    }
}

/// Character-wise path comparison in which the separator sorts below every
/// other character. On valid path strings this is exactly the lexicographic
/// comparison of their component sequences (`lemma_path_cmp_is_components`),
/// which is the tree's sibling order rather than the raw strings' byte order.
pub open spec fn path_cmp(x: Seq<char>, y: Seq<char>) -> Ordering
    decreases x.len(),
{
    if x.len() == 0 && y.len() == 0 {
        Ordering::Equal
    } else if x.len() == 0 {
        Ordering::Less
    } else if y.len() == 0 {
        Ordering::Greater
    } else if x[0] == y[0] {
        path_cmp(x.drop_first(), y.drop_first())
    } else if x[0] == sep() {
        Ordering::Less
    } else if y[0] == sep() {
        Ordering::Greater
    } else if (x[0] as u32) < (y[0] as u32) {
        Ordering::Less
    } else {
        Ordering::Greater
    }
}

/// On strings that do not end with a separator, character-wise comparison
/// with the separator sorting lowest is exactly the lexicographic comparison
/// of the component sequences. This is what makes `path_cmp` the tree's
/// sibling order: `b!` sorts after `b` as a sibling even though `!` sorts
/// below `/` as a byte.
#[verifier::rlimit(100)]
#[verifier::spinoff_prover]
pub proof fn lemma_path_cmp_is_components(x: Seq<char>, y: Seq<char>)
    requires
        x.len() > 0 ==> x[x.len() - 1] != sep(),
        y.len() > 0 ==> y[y.len() - 1] != sep(),
    ensures
        path_cmp(x, y) == cmp_components(path_components(x), path_components(y)),
    decreases x.len() + y.len(),
{
    let cx = path_components(x);
    let cy = path_components(y);
    lemma_components_from_props(x, 0);
    lemma_components_from_props(y, 0);
    if x.len() == 0 || y.len() == 0 {
        // One side has no components: both comparisons go by emptiness alone.
    } else {
        assert(x.subrange(0, x.len() as int) =~= x);
        assert(y.subrange(0, y.len() as int) =~= y);
        let f1 = first_sep(x);
        let f2 = first_sep(y);
        lemma_first_sep(x);
        lemma_first_sep(y);
        let xd = x.drop_first();
        let yd = y.drop_first();
        if x[0] == y[0] && x[0] == sep() {
            assert(f1 == 0 && f2 == 0);
            assert(cx == seq![x.subrange(0, 0)] + components_from(x, 1));
            assert(cy == seq![y.subrange(0, 0)] + components_from(y, 1));
            lemma_components_from_shift(x, 1);
            lemma_components_from_shift(y, 1);
            assert(xd =~= x.subrange(1, x.len() as int));
            assert(yd =~= y.subrange(1, y.len() as int));
            lemma_path_cmp_is_components(xd, yd);
            assert(cx[0] =~= Seq::<char>::empty());
            assert(cy[0] =~= Seq::<char>::empty());
            assert(cmp_char_seqs(cx[0], cy[0]) == Ordering::Equal);
            assert(cx.drop_first() =~= path_components(xd));
            assert(cy.drop_first() =~= path_components(yd));
        } else if x[0] == y[0] {
            assert(f1 >= 1 && f2 >= 1);
            if x.len() == 1 && y.len() == 1 {
                assert(x =~= y);
                assert(cx == seq![x] && cy == seq![y]);
                assert(xd =~= Seq::<char>::empty());
                assert(yd =~= Seq::<char>::empty());
                assert(path_cmp(x, y) == Ordering::Equal);
                assert(cmp_char_seqs(x, y) == Ordering::Equal) by {
                    assert(cmp_char_seqs(xd, yd) == Ordering::Equal);
                }
                assert(cx.drop_first() =~= Seq::<Seq<char>>::empty());
                assert(cy.drop_first() =~= Seq::<Seq<char>>::empty());
                assert(cmp_components(cx, cy) == Ordering::Equal);
            } else if x.len() == 1 {
                // `x` is a single one-character component shared with `y`.
                assert(f1 == 1);
                assert(cx == seq![x]);
                assert(xd =~= Seq::<char>::empty());
                lemma_path_cmp_is_components(xd, yd);
                lemma_components_from_props(yd, 0);
                assert(path_components(xd).len() == 0);
                assert(path_cmp(x, y) == path_cmp(xd, yd));
                assert(path_cmp(xd, yd) == Ordering::Less);
                let d = cy[0];
                assert(d == y.subrange(0, f2));
                if f2 == 1 {
                    assert(cmp_char_seqs(x, d) == Ordering::Equal) by {
                        assert(x[0] == d[0]);
                        assert(x.drop_first() =~= Seq::<char>::empty());
                        assert(d.drop_first() =~= Seq::<char>::empty());
                    }
                    assert(f2 < y.len());
                    assert(y.len() > 2) by {
                        assert(y[1] == sep());
                        assert(y[y.len() - 1] != sep());
                    }
                    assert(cy == seq![d] + components_from(y, 2));
                    lemma_components_from_props(y, 2);
                    assert(cy.drop_first() =~= components_from(y, 2));
                    assert(cx.drop_first() =~= Seq::<Seq<char>>::empty());
                    assert(cmp_components(cx.drop_first(), cy.drop_first())
                        == Ordering::Less);
                    assert(cmp_components(cx, cy) == Ordering::Less);
                } else {
                    assert(d.len() >= 2);
                    assert(cmp_char_seqs(x, d) == Ordering::Less) by {
                        assert(x[0] == d[0]);
                        assert(x.drop_first() =~= Seq::<char>::empty());
                        assert(d.drop_first().len() > 0);
                        assert(cmp_char_seqs(x.drop_first(), d.drop_first())
                            == Ordering::Less);
                    }
                    assert(cmp_components(cx, cy) == Ordering::Less);
                }
            } else if y.len() == 1 {
                assert(f2 == 1);
                assert(cy == seq![y]);
                assert(yd =~= Seq::<char>::empty());
                lemma_path_cmp_is_components(xd, yd);
                lemma_components_from_props(xd, 0);
                assert(path_components(yd).len() == 0);
                assert(path_cmp(x, y) == path_cmp(xd, yd));
                assert(path_cmp(xd, yd) == Ordering::Greater);
                let c = cx[0];
                assert(c == x.subrange(0, f1));
                if f1 == 1 {
                    assert(cmp_char_seqs(c, y) == Ordering::Equal) by {
                        assert(c[0] == y[0]);
                        assert(c.drop_first() =~= Seq::<char>::empty());
                        assert(y.drop_first() =~= Seq::<char>::empty());
                    }
                    assert(f1 < x.len());
                    assert(x.len() > 2) by {
                        assert(x[1] == sep());
                        assert(x[x.len() - 1] != sep());
                    }
                    assert(cx == seq![c] + components_from(x, 2));
                    lemma_components_from_props(x, 2);
                    assert(cx.drop_first() =~= components_from(x, 2));
                    assert(cy.drop_first() =~= Seq::<Seq<char>>::empty());
                    assert(cmp_components(cx.drop_first(), cy.drop_first())
                        == Ordering::Greater);
                    assert(cmp_components(cx, cy) == Ordering::Greater);
                } else {
                    assert(c.len() >= 2);
                    assert(cmp_char_seqs(c, y) == Ordering::Greater) by {
                        assert(c[0] == y[0]);
                        assert(y.drop_first() =~= Seq::<char>::empty());
                        assert(c.drop_first().len() > 0);
                        assert(cmp_char_seqs(c.drop_first(), y.drop_first())
                            == Ordering::Greater);
                    }
                    assert(cmp_components(cx, cy) == Ordering::Greater);
                }
            } else {
                // Both continue: drop the shared first character; the first
                // components lose their first character and the rest stand.
                let c = cx[0];
                let d = cy[0];
                assert(c == x.subrange(0, f1));
                assert(d == y.subrange(0, f2));
                let cxd = path_components(xd);
                let cyd = path_components(yd);
                assert(xd.len() > 0 && yd.len() > 0);
                // First component of the tail string.
                assert(xd.subrange(0, xd.len() as int) =~= xd);
                assert(yd.subrange(0, yd.len() as int) =~= yd);
                assert forall|j: int| 0 <= j < f1 - 1 implies xd[j] != sep() by {
                    assert(xd[j] == x[j + 1]);
                }
                if f1 < x.len() {
                    assert(xd[f1 - 1] == sep());
                }
                lemma_first_sep_is(xd, f1 - 1);
                assert forall|j: int| 0 <= j < f2 - 1 implies yd[j] != sep() by {
                    assert(yd[j] == y[j + 1]);
                }
                if f2 < y.len() {
                    assert(yd[f2 - 1] == sep());
                }
                lemma_first_sep_is(yd, f2 - 1);
                assert(cxd[0] =~= c.drop_first());
                assert(cyd[0] =~= d.drop_first());
                if f1 < x.len() {
                    assert(cx == seq![c] + components_from(x, f1 + 1));
                    assert(cxd == seq![xd.subrange(0, f1 - 1)] + components_from(xd, f1));
                    lemma_components_from_shift(x, f1 + 1);
                    lemma_components_from_shift(xd, f1);
                    assert(xd.subrange(f1, xd.len() as int) =~= x.subrange(
                        f1 + 1,
                        x.len() as int,
                    ));
                    assert(cxd.drop_first() =~= cx.drop_first());
                } else {
                    assert(cx == seq![x]);
                    assert(cxd == seq![xd]);
                    assert(cxd.drop_first() =~= cx.drop_first());
                }
                if f2 < y.len() {
                    assert(cy == seq![d] + components_from(y, f2 + 1));
                    assert(cyd == seq![yd.subrange(0, f2 - 1)] + components_from(yd, f2));
                    lemma_components_from_shift(y, f2 + 1);
                    lemma_components_from_shift(yd, f2);
                    assert(yd.subrange(f2, yd.len() as int) =~= y.subrange(
                        f2 + 1,
                        y.len() as int,
                    ));
                    assert(cyd.drop_first() =~= cy.drop_first());
                } else {
                    assert(cy == seq![y]);
                    assert(cyd == seq![yd]);
                    assert(cyd.drop_first() =~= cy.drop_first());
                }
                assert(cmp_char_seqs(c, d) == cmp_char_seqs(cxd[0], cyd[0])) by {
                    assert(c[0] == d[0]);
                    assert(c.drop_first() == cxd[0]);
                    assert(d.drop_first() == cyd[0]);
                }
                lemma_path_cmp_is_components(xd, yd);
                assert(path_cmp(x, y) == path_cmp(xd, yd));
                assert(cxd.len() > 0 && cyd.len() > 0);
                assert(cmp_components(cx, cy) == cmp_components(cxd, cyd));
            }
        } else if x[0] == sep() {
            assert(f1 == 0);
            assert(cx == seq![x.subrange(0, 0)] + components_from(x, 1));
            assert(cx[0] =~= Seq::<char>::empty());
            assert(f2 >= 1);
            assert(cy[0] == y.subrange(0, f2));
            assert(cy[0].len() > 0);
            assert(cmp_char_seqs(cx[0], cy[0]) == Ordering::Less);
            assert(cmp_components(cx, cy) == Ordering::Less);
        } else if y[0] == sep() {
            assert(f2 == 0);
            assert(cy == seq![y.subrange(0, 0)] + components_from(y, 1));
            assert(cy[0] =~= Seq::<char>::empty());
            assert(f1 >= 1);
            assert(cx[0] == x.subrange(0, f1));
            assert(cx[0].len() > 0);
            assert(cmp_char_seqs(cx[0], cy[0]) == Ordering::Greater);
            assert(cmp_components(cx, cy) == Ordering::Greater);
        } else {
            assert(f1 >= 1 && f2 >= 1);
            let c = cx[0];
            let d = cy[0];
            assert(c == x.subrange(0, f1));
            assert(d == y.subrange(0, f2));
            assert(c.len() > 0 && d.len() > 0);
            assert(c[0] == x[0] && d[0] == y[0]);
            if (x[0] as u32) < (y[0] as u32) {
                assert(cmp_char_seqs(c, d) == Ordering::Less);
                assert(cmp_components(cx, cy) == Ordering::Less);
                assert(path_cmp(x, y) == Ordering::Less);
            } else {
                assert(cmp_char_seqs(c, d) == Ordering::Greater);
                assert(cmp_components(cx, cy) == Ordering::Greater);
                assert(path_cmp(x, y) == Ordering::Greater);
            }
        }
    }
}

/// The join of one or more nonempty, separator-free components is a valid,
/// nonempty path string with exactly those components.
pub proof fn lemma_join_valid(x: Seq<Seq<char>>)
    requires
        x.len() >= 1,
        all_sep_free(x),
        components_nonempty(x),
    ensures
        is_valid_path_str(join_components(x)),
        join_components(x).len() >= 1,
        path_components(join_components(x)) == x,
{
    lemma_components_of_join(x);
    let s = join_components(x);
    assert(x[0].len() > 0);
    assert(x.last().len() > 0);
    if x.len() == 1 {
        assert(s == x[0]);
        assert(s[0] != sep());
        assert(s[s.len() - 1] != sep());
    } else {
        assert(seq![x[0]] + x.drop_first() =~= x);
        lemma_join_concat(seq![x[0]], x.drop_first());
        assert(join_components(seq![x[0]]) == x[0]);
        assert(s == x[0] + seq![sep()] + join_components(x.drop_first()));
        assert(s[0] == x[0][0]);
        assert(s[0] != sep());
        assert(x.drop_last().push(x.last()) =~= x);
        lemma_join_push(x.drop_last(), x.last());
        assert(s == join_components(x.drop_last()) + seq![sep()] + x.last());
        assert(s[s.len() - 1] == x.last()[x.last().len() - 1]);
        assert(s[s.len() - 1] != sep());
    }
}

/// Normalization is the identity on text without backslashes.
pub proof fn lemma_normalize_id(s: Seq<char>)
    requires
        forall|j: int| 0 <= j < s.len() ==> s[j] != '\\',
    ensures
        normalize_seps(s) == s,
{
    assert(normalize_seps(s) =~= s);
}

/// Backslash-to-slash separator normalization.
pub open spec fn normalize_seps(s: Seq<char>) -> Seq<char> {
    Seq::new(s.len(), |i: int| if s[i] == '\\' { sep() } else { s[i] })
}

/// A stored path string is valid when it neither starts nor ends with a
/// separator; the empty string denotes the root.
pub open spec fn is_valid_path_str(s: Seq<char>) -> bool {
    s.len() > 0 ==> (s[0] != sep() && s[s.len() - 1] != sep())
}

/// Declares `std::path::PathBuf` so that an error can carry the OS path
/// that failed to convert; nothing is assumed about the type itself.
#[verifier::external_type_specification]
#[verifier::external_body]
pub struct ExPathBuf(std::path::PathBuf);

/// Relies on `std::path::PathBuf::clone` existing so the error type can
/// derive `Clone`; nothing is claimed about the copy.
pub assume_specification[ <std::path::PathBuf as Clone>::clone ](p: &std::path::PathBuf) -> std::path::PathBuf;

/// Errors that can occur when working with RelativePath
#[derive(Debug, Clone)]
pub enum RelativePathError {
    /// The provided string is invalid as a relative path; it is carried
    /// normalized.
    InvalidPath(String),
    /// An OS path could not be converted to UTF-8 text.
    OsPathConversionError(std::path::PathBuf),
}

/// A path relative to some arbitrary root: a subset of the functionality of an
/// OS path, but without platform-specific behavior. It always uses `/` as the
/// separator, is always normalized at construction, and never starts or ends
/// with a separator. Relative components such as `..` are not rejected.
#[derive(Debug, Hash)]
pub struct RelativePath(String);

impl View for RelativePath {
    type V = Seq<char>;

    closed spec fn view(&self) -> Seq<char> {
        self.0@
    }
}

impl RelativePath {
    /// A well-formed path: valid text, with room to advance an index past it.
    pub open spec fn wf(&self) -> bool {
        is_valid_path_str(self@) && self@.len() < usize::MAX
    }

    /// Replaces all backslashes in the path with forward slashes if they exist
    fn normalize_separators(path: &str) -> (r: String)
        requires
            path@.len() < usize::MAX,
        ensures
            r@ == normalize_seps(path@),
    {
        let n = path.unicode_len();
        let mut r = String::new();
        let mut i: usize = 0;
        while i < n
            invariant
                n == path@.len() < usize::MAX,
                i <= n,
                r@ =~= normalize_seps(path@).subrange(0, i as int),
            decreases n - i,
        {
            let c = path.get_char(i);
            if c == '\\' {
                r.append("/");
                proof {
                    reveal_strlit("/");
                }
            } else {
                let piece = path.substring_char(i, i + 1);
                r.append(piece);
            }
            assert(r@ =~= normalize_seps(path@).subrange(0, i + 1));
            i = i + 1;
        }
        assert(r@ =~= normalize_seps(path@));
        r
    }

    /// Creates a new RelativePath from the given string, normalizing
    /// separators to `/`. Fails exactly when the normalized string starts or
    /// ends with a separator.
    pub fn new(path: &str) -> (result: Result<Self, RelativePathError>)
        requires
            path@.len() < usize::MAX,
        ensures
            result matches Ok(p) ==> {
                &&& p@ == normalize_seps(path@)
                &&& p.wf()
            },
            result is Ok <==> is_valid_path_str(normalize_seps(path@)),
            result matches Err(e) ==> (e matches RelativePathError::InvalidPath(s) && s@
                == normalize_seps(path@)),
    {
        let path_string = Self::normalize_separators(path);
        let n = path_string.as_str().unicode_len();
        if n > 0 {
            let first = path_string.as_str().get_char(0);
            let last = path_string.as_str().get_char(n - 1);
            if first == '/' || last == '/' {
                return Err(RelativePathError::InvalidPath(path_string));
            }
        }
        Ok(RelativePath(path_string))
    }

    /// Returns the string representation of the relative path
    pub fn as_str(&self) -> (r: &str)
        ensures
            r@ == self@,
    {
        self.0.as_str()
    }

    /// Returns true if the relative path is empty
    pub fn is_empty(&self) -> (r: bool)
        ensures
            r == (self@.len() == 0),
    {
        self.0.as_str().is_empty()
    }

    /// Returns an iterator over the components of the relative path
    pub fn components<'a>(&'a self) -> (r: RelativePathComponents<'a>)
        requires
            self.wf(),
        ensures
            r.inner@ == self@,
            r.index == 0,
            r.wf(),
    {
        RelativePathComponents { inner: self.0.as_str(), index: 0 }
    }

    /// Returns the file name of the path, that is its last component, or
    /// `None` for the empty path.
    pub fn file_name<'a>(&'a self) -> (r: Option<&'a str>)
        requires
            self.wf(),
        ensures
            self@.len() == 0 ==> r is None,
            self@.len() > 0 ==> {
                &&& path_components(self@).len() > 0
                &&& r matches Some(name) && name@ == path_components(self@).last()
            },
    {
        let ghost s = self@;
        let n = self.0.as_str().unicode_len();
        if n == 0 {
            None
        } else {
            // Invariants forbid a string ending or starting with a separator,
            // so the text after the last separator is the last component.
            let mut j: usize = n;
            while j > 0 && self.0.as_str().get_char(j - 1) != '/'
                invariant
                    self.wf(),
                    s == self@,
                    n == s.len(),
                    j <= n,
                    forall|m: int| j <= m < n ==> s[m] != sep(),
                decreases j,
            {
                j = j - 1;
            }
            let name = self.0.as_str().substring_char(j, n);
            proof {
                let cs = path_components(s);
                lemma_components_from_props(s, 0);
                lemma_join_components_round_trip(s);
                if cs.len() == 1 {
                    assert(s == cs[0]);
                    assert(sep_free(cs[0]));
                    assert(j == 0);
                    assert(name@ =~= cs.last());
                } else {
                    assert(cs.drop_last().push(cs.last()) =~= cs);
                    lemma_join_push(cs.drop_last(), cs.last());
                    let p = join_components(cs.drop_last()).len() as int;
                    assert(s == join_components(cs.drop_last()) + seq![sep()] + cs.last());
                    assert(s[p] == sep());
                    assert(sep_free(cs.last()));
                    assert forall|m: int| p < m < n implies s[m] != sep() by {
                        assert(s[m] == cs.last()[m - p - 1]);
                    }
                    assert(j != 0);
                    assert(s[j - 1] == sep());
                    assert(j - 1 == p);
                    assert(name@ =~= cs.last());
                }
            }
            Some(name)
        }
    }

    /// Returns the common ancestor of this path and another path.
    /// For example, the common ancestor of "a/b/c/d" and "a/b/e/f" is "a/b".
    /// The common ancestor of "a/b/c" and "d/e/f" is the empty root path.
    pub fn common_ancestor<'a>(&'a self, other: &RelativePath) -> (r: RelativePathComponents<
        'a,
    >)
        requires
            self.wf(),
            other.wf(),
        ensures
            r.inner@ == spec_common_ancestor(self@, other@),
            r.index == 0,
            r.wf(),
    {
        let idx = self.common_ancestor_separator_index(other);
        proof {
            lemma_ancestor_prefix(self@, other@);
        }
        RelativePathComponents { inner: self.0.as_str().substring_char(0, idx), index: 0 }
    }

    /// Returns the components iterator of this path pre-advanced past the
    /// prefix shared with another path: for self of "a/b/c/d" compared with
    /// "a/b/e/f", an iterator over "a/b/c/d" already advanced to "c". When
    /// nothing is shared the iterator starts at the beginning and yields
    /// every component.
    pub fn components_starting_at_common_ancestor<'a>(
        &'a self,
        other: &RelativePath,
    ) -> (r: RelativePathComponents<'a>)
        requires
            self.wf(),
            other.wf(),
        ensures
            r.inner@ == self@,
            r.wf(),
            r.remaining() == path_components(self@).skip(
                common_count(path_components(self@), path_components(other@)),
            ),
            ancestor_sep_index(self@, other@) == 0 ==> r.index == 0,
            ancestor_sep_index(self@, other@) > 0 ==> r.index as int == ancestor_sep_index(
                self@,
                other@,
            ) + 1,
    {
        let idx = self.common_ancestor_separator_index(other);
        proof {
            lemma_ancestor_prefix(self@, other@);
        }
        let start = if idx == 0 {
            0
        } else {
            idx + 1
        };
        proof {
            let s = self@;
            let pc = path_components(s);
            let m = common_count(pc, path_components(other@));
            lemma_common_count(pc, path_components(other@));
            if m == 0 {
                assert(pc.take(0) =~= Seq::<Seq<char>>::empty());
                assert(ancestor_sep_index(s, other@) == 0);
                assert(pc.skip(0) =~= pc);
            } else {
                // The shared prefix starts with the path's first component,
                // which is nonempty because the path does not start with a
                // separator; so a nonzero share has a nonzero offset.
                lemma_components_from_props(s, 0);
                assert(pc.len() >= 1);
                assert(s.len() > 0);
                assert(pc[0].len() >= 1) by {
                    assert(s.subrange(0, s.len() as int) =~= s);
                    lemma_first_sep(s);
                    assert(first_sep(s) >= 1);
                }
                assert(pc.take(m)[0] == pc[0]);
                assert(join_components(pc.take(m)).len() >= 1) by {
                    if pc.take(m).len() == 1 {
                        assert(join_components(pc.take(m)) == pc.take(m)[0]);
                    }
                }
                lemma_components_from_at(s, m);
            }
        }
        RelativePathComponents { inner: self.0.as_str(), index: start }
    }

    /// The character offset within `self` at which the common ancestor with
    /// `other` ends.
    fn common_ancestor_separator_index(&self, other: &RelativePath) -> (idx: usize)
        requires
            self.wf(),
            other.wf(),
        ensures
            idx as int == ancestor_sep_index(self@, other@),
    {
        let ghost a = self@;
        let ghost b = other@;
        let ghost ca = path_components(a);
        let ghost cb = path_components(b);
        let mut self_iter = self.components();
        let mut other_iter = other.components();
        let mut index: usize = 0;
        let ghost mut m: int = 0;
        loop
            invariant_except_break
                self_iter.remaining() == ca.skip(m),
                other_iter.remaining() == cb.skip(m),
                self_iter.index as int == if m == 0 {
                    0int
                } else {
                    join_components(ca.take(m)).len() as int + 1
                },
            invariant
                self_iter.inner@ == a,
                other_iter.inner@ == b,
                self_iter.wf(),
                other_iter.wf(),
                0 <= m <= ca.len(),
                m <= cb.len(),
                forall|j: int| 0 <= j < m ==> ca[j] == cb[j],
                index as int == if m == 0 {
                    0int
                } else {
                    join_components(ca.take(m)).len() as int + 1
                },
            ensures
                m == common_count(ca, cb),
                index as int == if m == 0 {
                    0int
                } else {
                    join_components(ca.take(m)).len() as int + 1
                },
            decreases ca.len() - m,
        {
            let ghost i0 = self_iter.index as int;
            let next_self = self_iter.next();
            match next_self {
                None => {
                    proof {
                        assert(ca.skip(m).len() == 0) by {
                            lemma_components_from_props(a, m);
                        }
                        assert(m == ca.len());
                        lemma_common_count_is(ca, cb, m);
                    }
                    break ;
                },
                Some(c1) => {
                    let next_other = other_iter.next();
                    match next_other {
                        None => {
                            proof {
                                assert(cb.skip(m).len() == 0);
                                assert(m == cb.len());
                                lemma_common_count_is(ca, cb, m);
                            }
                            break ;
                        },
                        Some(c2) => {
                            proof {
                                assert(c1@ == ca.skip(m)[0]);
                                assert(c2@ == cb.skip(m)[0]);
                                assert(ca.skip(m)[0] == ca[m]);
                                assert(cb.skip(m)[0] == cb[m]);
                            }
                            if !str_eq(c1, c2) {
                                proof {
                                    lemma_common_count_is(ca, cb, m);
                                }
                                break ;
                            }
                            proof {
                                let sub = a.subrange(i0, a.len() as int);
                                lemma_first_sep(sub);
                                let k = i0 + first_sep(sub);
                                assert(c1@ == a.subrange(i0, k));
                                assert(c1@.len() == k - i0);
                                assert(self_iter.index as int == k + 1);
                                lemma_join_push(ca.take(m), ca[m]);
                                assert(ca.take(m).push(ca[m]) =~= ca.take(m + 1));
                                if m == 0 {
                                    assert(join_components(ca.take(1)) == ca[0]);
                                    assert(self_iter.index as int == ca[0].len() + 1);
                                } else {
                                    assert(join_components(ca.take(m + 1)) == join_components(
                                        ca.take(m),
                                    ) + seq![sep()] + ca[m]);
                                    assert(join_components(ca.take(m + 1)).len()
                                        == join_components(ca.take(m)).len() + 1 + ca[m].len());
                                }
                                assert(ca.skip(m).drop_first() =~= ca.skip(m + 1));
                                assert(cb.skip(m).drop_first() =~= cb.skip(m + 1));
                                m = m + 1;
                                assert(self_iter.index as int == join_components(
                                    ca.take(m),
                                ).len() as int + 1);
                            }
                            index = self_iter.index;
                        },
                    }
                },
            }
        }
        proof {
            if m > 0 {
                lemma_common_count(ca, cb);
                lemma_ancestor_prefix(a, b);
            } else {
                assert(ca.take(0) =~= Seq::<Seq<char>>::empty());
            }
        }
        if index == 0 {
            0
        } else {
            index - 1
        }
    }
}

/// Character-for-character string equality.
pub(crate) fn str_eq(a: &str, b: &str) -> (r: bool)
    ensures
        r == (a@ == b@),
{
    let na = a.unicode_len();
    let nb = b.unicode_len();
    if na != nb {
        return false;
    }
    let mut i: usize = 0;
    while i < na
        invariant
            na == a@.len(),
            nb == b@.len(),
            na == nb,
            i <= na,
            forall|m: int| 0 <= m < i ==> a@[m] == b@[m],
        decreases na - i,
    {
        if a.get_char(i) != b.get_char(i) {
            return false;
        }
        i = i + 1;
    }
    proof {
        assert(a@ =~= b@);
    }
    true
}

/// An iterator over the components of a RelativePath
#[derive(Debug, Clone)]
pub struct RelativePathComponents<'a> {
    /// The full text iterated over.
    pub inner: &'a str,
    /// The character position of the current component: `0` before the first
    /// component, otherwise one past the separator that ended the previous
    /// component (so one past the end of the text once iteration finished).
    pub index: usize,
}

impl<'a> RelativePathComponents<'a> {
    /// A well-formed iterator: the position is at most one past the text's
    /// end, and there is room to advance it.
    pub open spec fn wf(&self) -> bool {
        self.inner@.len() < usize::MAX && self.index <= self.inner@.len() + 1
    }

    /// The components not yet returned.
    pub open spec fn remaining(&self) -> Seq<Seq<char>> {
        components_from(self.inner@, self.index as int)
    }

    /// Returns the full path string represented by this iterator, constant
    /// over the iterator state
    pub fn as_full_str(&self) -> (r: &'a str)
        ensures
            r@ == self.inner@,
    {
        self.inner
    }

    /// Returns the accumulated path string up to (but not including) the
    /// current component
    pub fn as_accumulated_str(&self) -> (r: &'a str)
        requires
            self.wf(),
        ensures
            r@ == self.inner@.subrange(
                0,
                if self.index == 0 {
                    0int
                } else {
                    self.index - 1
                },
            ),
    {
        let end = if self.index == 0 {
            0
        } else {
            self.index - 1
        };
        self.inner.substring_char(0, end)
    }

    /// Whether the iterator has passed the final component.
    pub fn is_at_last_entry(&self) -> (r: bool)
        ensures
            r == (self.index >= self.inner@.len()),
    {
        self.index >= self.inner.unicode_len()
    }

    /// Returns the next component of the relative path, or None if there are
    /// no more components
    pub fn next(&mut self) -> (r: Option<&'a str>)
        requires
            old(self).wf(),
        ensures
            final(self).inner == old(self).inner,
            final(self).wf(),
            old(self).index >= old(self).inner@.len() ==> r is None && *final(self) == *old(
                self,
            ),
            old(self).index < old(self).inner@.len() ==> {
                let s = old(self).inner@;
                let i = old(self).index as int;
                let k = i + first_sep(s.subrange(i, s.len() as int));
                &&& r matches Some(c) && c@ == s.subrange(i, k) && c@ == old(
                    self,
                ).remaining()[0]
                &&& final(self).index == k + 1
                &&& old(self).remaining().len() > 0
                &&& final(self).remaining() == old(self).remaining().drop_first()
            },
    {
        let ghost s = self.inner@;
        let n = self.inner.unicode_len();
        if self.index >= n {
            None
        } else {
            let ghost i = self.index as int;
            let mut j: usize = self.index;
            while j < n && self.inner.get_char(j) != '/'
                invariant
                    s == self.inner@,
                    n == s.len() < usize::MAX,
                    i == self.index,
                    i <= j <= n,
                    forall|m: int| i <= m < j ==> s[m] != sep(),
                decreases n - j,
            {
                j = j + 1;
            }
            proof {
                let sub = s.subrange(i, s.len() as int);
                assert forall|m: int| 0 <= m < j - i implies sub[m] != sep() by {
                    assert(sub[m] == s[i + m]);
                }
                if j < n {
                    assert(sub[j - i] == sep());
                }
                lemma_first_sep_is(sub, j - i);
            }
            let component = self.inner.substring_char(self.index, j);
            self.index = j + 1;
            proof {
                let k = i + first_sep(s.subrange(i, s.len() as int));
                assert(k == j);
                if k >= s.len() {
                    assert(components_from(s, i) == seq![s.subrange(i, s.len() as int)]);
                    assert(component@ == s.subrange(i, s.len() as int));
                    assert(final(self).remaining() =~= components_from(s, i).drop_first());
                } else {
                    assert(components_from(s, i) == seq![s.subrange(i, k)] + components_from(
                        s,
                        k + 1,
                    ));
                    assert(final(self).remaining() =~= components_from(s, i).drop_first());
                }
            }
            Some(component)
        }
    }
}

impl Default for RelativePath {
    /// The default relative path is the root, the empty path.
    fn default() -> (r: Self)
        ensures
            r@ == Seq::<char>::empty(),
            r.wf(),
    {
        RelativePath(String::new())
    }
}

impl Clone for RelativePath {
    fn clone(&self) -> (r: Self)
        ensures
            r == *self,
    {
        RelativePath(self.0.clone())
    }
}

/// Character-wise path comparison with the separator sorting lowest.
fn cmp_path_strs(a: &str, b: &str) -> (o: Ordering)
    ensures
        o == path_cmp(a@, b@),
{
    let na = a.unicode_len();
    let nb = b.unicode_len();
    let mut i: usize = 0;
    proof {
        assert(a@.subrange(0, na as int) =~= a@);
        assert(b@.subrange(0, nb as int) =~= b@);
    }
    while i < na && i < nb
        invariant
            na == a@.len(),
            nb == b@.len(),
            i <= na,
            i <= nb,
            path_cmp(a@, b@) == path_cmp(
                a@.subrange(i as int, na as int),
                b@.subrange(i as int, nb as int),
            ),
        decreases na - i,
    {
        let ghost x = a@.subrange(i as int, na as int);
        let ghost y = b@.subrange(i as int, nb as int);
        let ca = a.get_char(i);
        let cb = b.get_char(i);
        proof {
            assert(x[0] == ca);
            assert(y[0] == cb);
        }
        if ca == cb {
            proof {
                assert(x.drop_first() =~= a@.subrange(i + 1, na as int));
                assert(y.drop_first() =~= b@.subrange(i + 1, nb as int));
            }
            i = i + 1;
        } else if ca == '/' {
            return Ordering::Less;
        } else if cb == '/' {
            return Ordering::Greater;
        } else if (ca as u32) < (cb as u32) {
            return Ordering::Less;
        } else {
            return Ordering::Greater;
        }
    }
    proof {
        assert(a@.subrange(i as int, na as int).len() == na - i);
        assert(b@.subrange(i as int, nb as int).len() == nb - i);
    }
    if na == nb {
        Ordering::Equal
    } else if i >= na {
        Ordering::Less
    } else {
        Ordering::Greater
    }
}

impl vstd::std_specs::cmp::PartialEqSpecImpl for RelativePath {
    open spec fn obeys_eq_spec() -> bool {
        true
    }

    open spec fn eq_spec(&self, other: &RelativePath) -> bool {
        self@ == other@
    }
}

impl PartialEq for RelativePath {
    /// Two relative paths are equal when their normalized texts are equal.
    fn eq(&self, other: &Self) -> (r: bool) {
        str_eq(self.0.as_str(), other.0.as_str())
    }
}

impl vstd::std_specs::cmp::PartialOrdSpecImpl for RelativePath {
    open spec fn obeys_partial_cmp_spec() -> bool {
        true
    }

    open spec fn partial_cmp_spec(&self, other: &RelativePath) -> Option<Ordering> {
        Some(path_cmp(self@, other@))
    }
}

impl PartialOrd for RelativePath {
    /// Total order by component-sequence lexicographic comparison: the
    /// separator is compared below every other character, so that a sibling
    /// name extending another (`b` vs. `b!`) sorts as the tree orders it,
    /// not as the raw bytes would.
    fn partial_cmp(&self, other: &Self) -> (r: Option<Ordering>) {
        Some(cmp_path_strs(self.0.as_str(), other.0.as_str()))
    }
}

} // verus!
