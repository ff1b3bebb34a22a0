//! The mathematical model of dotted tag paths: case folding, well-formedness,
//! the ancestor relation between paths, and the decomposition of a path into
//! its chain of dotted prefixes.

use vstd::prelude::*;

verus! {

/// Canonical form of one character: ASCII upper-case letters fold to lower
/// case, every other character is unchanged.
pub open spec fn fold_char(c: char) -> char {
    if 65 <= c as int && c as int <= 90 {
        ((c as int) + 32) as char
    } else {
        c
    }
}

/// Canonical (case-folded) form of a path.
pub open spec fn canon(s: Seq<char>) -> Seq<char> {
    s.map_values(|c: char| fold_char(c))
}

/// A well-formed dotted path: non-empty, with every dot-separated segment
/// non-empty (no leading, trailing or doubled dots).
pub open spec fn valid_path(s: Seq<char>) -> bool {
    &&& s.len() > 0
    &&& s[0] != '.'
    &&& s[s.len() - 1] != '.'
    &&& forall|i: int| 0 <= i < s.len() - 1 ==> !(#[trigger] s[i] == '.' && s[i + 1] == '.')
}

/// `b` marks the end of a segment of `s`: either the end of the whole path or
/// the position of a dot.
pub open spec fn is_boundary(s: Seq<char>, b: int) -> bool {
    0 <= b <= s.len() && (b == s.len() || s[b] == '.')
}

/// `p` names the same node as `q` or an ancestor of it: `p` is a prefix of `q`
/// that ends exactly at a segment boundary.
pub open spec fn is_dotted_prefix(p: Seq<char>, q: Seq<char>) -> bool {
    &&& p.len() <= q.len()
    &&& p == q.subrange(0, p.len() as int)
    &&& is_boundary(q, p.len() as int)
}

/// The end of the segment of `s` that starts at `from`: the first boundary at
/// or after `from`.
pub open spec fn seg_end(s: Seq<char>, from: int) -> int
    decreases s.len() - from,
{
    if from >= s.len() {
        s.len() as int
    } else if s[from] == '.' {
        from
    } else {
        seg_end(s, from + 1)
    }
}

/// The dotted prefixes of `s` whose boundary lies at or after `from`, shortest
/// first. (The guard `e < from` never holds when `0 <= from <= s.len()`; it
/// only makes termination evident.)
pub open spec fn prefixes_from(s: Seq<char>, from: int) -> Seq<Seq<char>>
    decreases s.len() - from,
{
    let e = seg_end(s, from);
    if e >= s.len() || e < from {
        seq![s]
    } else {
        seq![s.subrange(0, e)] + prefixes_from(s, e + 1)
    }
}

/// Every dotted prefix of `s`, shortest first: one entry per segment boundary.
pub open spec fn prefixes(s: Seq<char>) -> Seq<Seq<char>> {
    prefixes_from(s, 0)
}

pub proof fn lemma_seg_end(s: Seq<char>, from: int)
    requires
        0 <= from <= s.len(),
    ensures
        from <= seg_end(s, from) <= s.len(),
        is_boundary(s, seg_end(s, from)),
        forall|b: int| from <= b < seg_end(s, from) ==> !is_boundary(s, b),
    decreases s.len() - from,
{
    if from >= s.len() {
    } else if s[from] == '.' {
    } else {
        lemma_seg_end(s, from + 1);
    }
}

/// Shape of the prefix chain: entries are exactly the boundary-delimited
/// prefixes of `s` from `from` on, in strictly increasing length, ending in
/// `s` itself, with no boundary skipped between consecutive entries.
pub proof fn lemma_prefixes_from(s: Seq<char>, from: int)
    requires
        0 <= from <= s.len(),
    ensures
        prefixes_from(s, from).len() >= 1,
        prefixes_from(s, from)[prefixes_from(s, from).len() - 1] == s,
        prefixes_from(s, from)[0].len() == seg_end(s, from),
        forall|j: int|
            0 <= j < prefixes_from(s, from).len() ==> {
                let p = #[trigger] prefixes_from(s, from)[j];
                &&& from <= p.len() <= s.len()
                &&& p == s.subrange(0, p.len() as int)
                &&& is_boundary(s, p.len() as int)
            },
        forall|j: int, k: int|
            0 <= j < k < prefixes_from(s, from).len() ==> #[trigger] prefixes_from(s, from)[j].len()
                < #[trigger] prefixes_from(s, from)[k].len(),
        forall|b: int|
            from <= b && is_boundary(s, b) ==> exists|j: int|
                0 <= j < prefixes_from(s, from).len() && #[trigger] prefixes_from(s, from)[j].len()
                    == b,
        forall|j: int, b: int|
            #![trigger prefixes_from(s, from)[j], is_boundary(s, b)]
            0 <= j < prefixes_from(s, from).len() - 1 && prefixes_from(s, from)[j].len() < b
                < prefixes_from(s, from)[j + 1].len() ==> !is_boundary(s, b),
    decreases s.len() - from,
{
    lemma_seg_end(s, from);
    let e = seg_end(s, from);
    let pf = prefixes_from(s, from);
    if e >= s.len() {
        assert(s.subrange(0, s.len() as int) =~= s);
        assert(pf[0] == s);
        assert forall|b: int| from <= b && is_boundary(s, b) implies exists|j: int|
            0 <= j < pf.len() && #[trigger] pf[j].len() == b by {
            if b < e {
                assert(!is_boundary(s, b));
            } else {
                assert(b == s.len());
                assert(pf[0].len() == b);
            }
        }
    } else {
        lemma_prefixes_from(s, e + 1);
        let rest = prefixes_from(s, e + 1);
        assert(pf == seq![s.subrange(0, e)] + rest);
        assert(pf[0] == s.subrange(0, e));
        assert(pf[0].len() == e);
        assert forall|j: int| 0 <= j < pf.len() implies {
            let p = #[trigger] pf[j];
            &&& from <= p.len() <= s.len()
            &&& p == s.subrange(0, p.len() as int)
            &&& is_boundary(s, p.len() as int)
        } by {
            if j == 0 {
                assert(pf[0] == s.subrange(0, e));
                assert(s.subrange(0, e).len() == e);
            } else {
                assert(pf[j] == rest[j - 1]);
            }
        }
        assert forall|j: int, k: int| 0 <= j < k < pf.len() implies #[trigger] pf[j].len()
            < #[trigger] pf[k].len() by {
            if j == 0 {
                assert(pf[k] == rest[k - 1]);
                assert(rest[k - 1].len() >= e + 1);
            } else {
                assert(pf[j] == rest[j - 1]);
                assert(pf[k] == rest[k - 1]);
            }
        }
        assert forall|b: int| from <= b && is_boundary(s, b) implies exists|j: int|
            0 <= j < pf.len() && #[trigger] pf[j].len() == b by {
            if b < e {
                assert(!is_boundary(s, b));
            } else if b == e {
                assert(pf[0].len() == b);
            } else {
                assert(b >= e + 1);
                let j0 = choose|j0: int|
                    0 <= j0 < rest.len() && #[trigger] rest[j0].len() == b;
                assert(pf[j0 + 1].len() == b);
            }
        }
        assert forall|j: int, b: int|
            #![trigger pf[j], is_boundary(s, b)]
            0 <= j < pf.len() - 1 && pf[j].len() < b < pf[j + 1].len() implies !is_boundary(
            s,
            b,
        ) by {
            if j == 0 {
                assert(pf[1] == rest[0]);
                assert(rest[0].len() == seg_end(s, e + 1));
                if b <= e {
                    assert(false);
                } else {
                    assert(e + 1 <= b < seg_end(s, e + 1));
                }
            } else {
                assert(pf[j] == rest[j - 1]);
                assert(pf[j + 1] == rest[j]);
            }
        }
    }
}

/// The entries of `prefixes(s)` are exactly the dotted prefixes of `s`.
pub proof fn lemma_prefixes_characterize(s: Seq<char>, p: Seq<char>)
    ensures
        prefixes(s).contains(p) <==> is_dotted_prefix(p, s),
{
    lemma_prefixes_from(s, 0);
    let pf = prefixes(s);
    if is_dotted_prefix(p, s) {
        let b = p.len() as int;
        assert(is_boundary(s, b));
        let j = choose|j: int| 0 <= j < pf.len() && #[trigger] pf[j].len() == b;
        assert(pf[j] == s.subrange(0, b));
        assert(pf[j] == p);
        assert(pf.contains(p));
    }
    if pf.contains(p) {
        let j = choose|j: int| 0 <= j < pf.len() && pf[j] == p;
        assert(pf[j].len() <= s.len());
    }
}

/// Dotted prefixes of a well-formed path are themselves well-formed paths.
pub proof fn lemma_dotted_prefix_valid(p: Seq<char>, s: Seq<char>)
    requires
        valid_path(s),
        is_dotted_prefix(p, s),
    ensures
        valid_path(p),
{
    let b = p.len() as int;
    if b == 0 {
        assert(is_boundary(s, 0));
        assert(false);
    }
    assert(p[0] == s[0]);
    if b < s.len() {
        assert(s[b] == '.');
        if s[b - 1] == '.' {
            assert(s[b - 1] == '.' && s[b - 1 + 1] == '.');
            assert(false);
        }
        assert(p[b - 1] == s[b - 1]);
    } else {
        assert(p[b - 1] == s[b - 1]);
    }
    assert forall|i: int| 0 <= i < p.len() - 1 implies !(#[trigger] p[i] == '.' && p[i + 1]
        == '.') by {
        assert(p[i] == s[i]);
        assert(p[i + 1] == s[i + 1]);
    }
}

pub proof fn lemma_dotted_prefix_refl(p: Seq<char>)
    ensures
        is_dotted_prefix(p, p),
{
    assert(p.subrange(0, p.len() as int) =~= p);
}

pub proof fn lemma_dotted_prefix_antisym(p: Seq<char>, q: Seq<char>)
    requires
        is_dotted_prefix(p, q),
        is_dotted_prefix(q, p),
    ensures
        p == q,
{
    assert(p.len() == q.len());
    assert(q.subrange(0, q.len() as int) =~= q);
}

pub proof fn lemma_dotted_prefix_trans(p: Seq<char>, q: Seq<char>, r: Seq<char>)
    requires
        is_dotted_prefix(p, q),
        is_dotted_prefix(q, r),
    ensures
        is_dotted_prefix(p, r),
{
    assert(q == r.subrange(0, q.len() as int));
    assert forall|i: int| 0 <= i < p.len() implies p[i] == r[i] by {
        assert(p[i] == q.subrange(0, p.len() as int)[i]);
        assert(q[i] == r.subrange(0, q.len() as int)[i]);
    }
    assert(p =~= r.subrange(0, p.len() as int));
    if p.len() == q.len() {
        assert(is_boundary(r, q.len() as int));
    } else {
        assert(q[p.len() as int] == '.');
        assert(r[p.len() as int] == q.subrange(0, q.len() as int)[p.len() as int]);
    }
}

/// The dotted prefixes of an entry of the prefix chain are that entry itself
/// together with the dotted prefixes of the previous (next shorter) entry; the
/// first entry has no dotted prefix besides itself.
pub proof fn lemma_prefix_ancestors(s: Seq<char>, j: int, t: Seq<char>)
    requires
        0 <= j < prefixes(s).len(),
    ensures
        j == 0 ==> (is_dotted_prefix(t, prefixes(s)[0]) <==> t == prefixes(s)[0]),
        j > 0 ==> (is_dotted_prefix(t, prefixes(s)[j]) <==> (t == prefixes(s)[j]
            || is_dotted_prefix(t, prefixes(s)[j - 1]))),
{
    lemma_prefixes_from(s, 0);
    lemma_seg_end(s, 0);
    let pf = prefixes(s);
    let pj = pf[j];
    let bj = pj.len() as int;
    lemma_dotted_prefix_refl(pj);
    if j == 0 {
        if is_dotted_prefix(t, pj) && t != pj {
            let k = t.len() as int;
            assert(k < bj);
            assert(pj[k] == '.');
            assert(pj[k] == s.subrange(0, bj)[k]);
            assert(is_boundary(s, k));
            assert(bj == seg_end(s, 0));
            assert(false);
        }
    } else {
        let pp = pf[j - 1];
        let bp = pp.len() as int;
        assert(bp < bj);
        if is_dotted_prefix(t, pj) && t != pj {
            let k = t.len() as int;
            assert(k < bj);
            assert(pj[k] == '.');
            assert(pj[k] == s.subrange(0, bj)[k]);
            assert(is_boundary(s, k));
            // no boundary is skipped between consecutive entries
            assert(!(bp < k < bj));
            assert(k <= bp);
            assert forall|i: int| 0 <= i < t.len() implies t[i] == pp[i] by {
                assert(t[i] == pj[i]);
                assert(pj[i] == s[i]);
                assert(pp[i] == s[i]);
            }
            assert(t =~= pp.subrange(0, k));
            if k < bp {
                assert(pp[k] == s[k]);
                assert(s[k] == '.');
            }
            assert(is_dotted_prefix(t, pp));
        }
        if is_dotted_prefix(t, pp) {
            let k = t.len() as int;
            assert forall|i: int| 0 <= i < t.len() implies t[i] == pj[i] by {
                assert(t[i] == pp.subrange(0, k)[i]);
                assert(pp[i] == s[i]);
                assert(pj[i] == s[i]);
            }
            assert(t =~= pj.subrange(0, k));
            if k == bp {
                assert(is_boundary(s, bp));
                assert(bp < s.len());
                assert(s[bp] == '.');
                assert(pj[bp] == s[bp]);
            } else {
                assert(pp[k] == '.');
                assert(pj[k] == s[k]);
                assert(pp[k] == s[k]);
            }
            assert(is_dotted_prefix(t, pj));
        }
    }
}

pub proof fn lemma_fold_char_dot(c: char)
    ensures
        (fold_char(c) == '.') <==> (c == '.'),
{
    if 65 <= c as int && c as int <= 90 {
        assert(fold_char(c) as int == c as int + 32);
    }
}

pub proof fn lemma_fold_char_idempotent(c: char)
    ensures
        fold_char(fold_char(c)) == fold_char(c),
{
    if 65 <= c as int && c as int <= 90 {
        assert(fold_char(c) as int == c as int + 32);
    }
}

/// Case folding keeps the dot structure of a path, hence its well-formedness.
pub proof fn lemma_canon_valid(s: Seq<char>)
    ensures
        canon(s).len() == s.len(),
        valid_path(canon(s)) <==> valid_path(s),
{
    assert forall|i: int| 0 <= i < s.len() implies ((#[trigger] canon(s)[i] == '.') <==> (s[i]
        == '.')) by {
        lemma_fold_char_dot(s[i]);
    }
    if valid_path(s) {
        assert forall|i: int| 0 <= i < canon(s).len() - 1 implies !(#[trigger] canon(s)[i] == '.'
            && canon(s)[i + 1] == '.') by {}
    }
    if valid_path(canon(s)) {
        assert forall|i: int| 0 <= i < s.len() - 1 implies !(#[trigger] s[i] == '.' && s[i + 1]
            == '.') by {
            assert(canon(s)[i] == fold_char(s[i]));
        }
    }
}

/// Case folding is idempotent: a canonical path folds to itself.
pub proof fn lemma_canon_idempotent(s: Seq<char>)
    ensures
        canon(canon(s)) == canon(s),
{
    assert forall|i: int| 0 <= i < s.len() implies #[trigger] canon(canon(s))[i] == canon(s)[i] by {
        lemma_fold_char_idempotent(s[i]);
    }
    assert(canon(canon(s)) =~= canon(s));
}

/// Case folding commutes with taking prefixes.
pub proof fn lemma_canon_subrange(s: Seq<char>, i: int, j: int)
    requires
        0 <= i <= j <= s.len(),
    ensures
        canon(s).subrange(i, j) == canon(s.subrange(i, j)),
{
    assert(canon(s).subrange(i, j) =~= canon(s.subrange(i, j)));
}

/// A canonical path's dotted prefixes are themselves canonical.
pub proof fn lemma_dotted_prefix_canon(p: Seq<char>, s: Seq<char>)
    requires
        is_dotted_prefix(p, s),
        canon(s) == s,
    ensures
        canon(p) == p,
{
    lemma_canon_subrange(s, 0, p.len() as int);
    assert(canon(p) =~= p);
}

/// Appending to a sequence filters to the old part, plus the new element when
/// it satisfies the predicate.
pub proof fn lemma_filter_push<A>(s: Seq<A>, x: A, pred: spec_fn(A) -> bool)
    ensures
        s.push(x).filter(pred) == if pred(x) {
            s.filter(pred).push(x)
        } else {
            s.filter(pred)
        },
{
    assert(s.push(x).drop_last() =~= s);
    assert(s.push(x).last() == x);
    reveal_with_fuel(Seq::filter, 2);
}

/// A sequence none of whose elements satisfies the predicate filters to the
/// empty sequence.
pub proof fn lemma_filter_all_false<A>(s: Seq<A>, pred: spec_fn(A) -> bool)
    requires
        forall|i: int| 0 <= i < s.len() ==> !pred(#[trigger] s[i]),
    ensures
        s.filter(pred) == Seq::<A>::empty(),
    decreases s.len(),
{
    reveal_with_fuel(Seq::filter, 2);
    if s.len() == 0 {
        assert(s.filter(pred) =~= Seq::<A>::empty());
    } else {
        assert forall|i: int| 0 <= i < s.drop_last().len() implies !pred(
            #[trigger] s.drop_last()[i],
        ) by {
            assert(s.drop_last()[i] == s[i]);
        }
        lemma_filter_all_false(s.drop_last(), pred);
        assert(!pred(s.last()));
    }
}

} // verus!
