use vstd::prelude::*;
use crate::order::{is_sorted, sorted_strings};
use crate::text::{
    eq_ignore_ascii_case, is_ascii_alnum, is_ascii_alpha, spec_ascii_alnum, spec_ascii_alpha,
    spec_ascii_lower, views,
};

verus! {

/// How one requested char matches one char of a candidate identifier: ASCII
/// letters match ignoring ASCII case, ASCII digits match only themselves, and
/// any other char (a space, a symbol, a non-ASCII char) matches itself, `-`
/// or `_`.
pub open spec fn spec_char_matches(requested: char, candidate: char) -> bool {
    if spec_ascii_alpha(candidate) {
        spec_ascii_lower(requested) == spec_ascii_lower(candidate)
    } else if candidate == ' ' || !spec_ascii_alnum(candidate) {
        requested == candidate || requested == '-' || requested == '_'
    } else {
        requested == candidate
    }
}

/// A requested identifier matches a candidate of the same length char by char.
pub open spec fn spec_mod_id_matches(requested: Seq<char>, candidate: Seq<char>) -> bool {
    &&& requested.len() == candidate.len()
    &&& forall|i: int| 0 <= i < requested.len() ==> spec_char_matches(requested[i], candidate[i])
}

/// The candidates that `requested` matches, in candidate order.
pub open spec fn matching(candidates: Seq<Seq<char>>, requested: Seq<char>) -> Seq<Seq<char>> {
    candidates.filter(|c: Seq<char>| spec_mod_id_matches(requested, c))
}

/// Why a requested identifier could not be resolved.
#[derive(Debug)]
pub enum ResolveError {
    /// No candidate matches the identifier.
    NotFound(String),
    /// Several candidates match; they are listed in ascending order.
    Ambiguous(String, Vec<String>),
}

/// Whether a requested char matches a candidate char.
pub fn char_matches(requested: char, candidate: char) -> (r: bool)
    ensures
        r == spec_char_matches(requested, candidate),
{
    if is_ascii_alpha(candidate) {
        return eq_ignore_ascii_case(requested, candidate);
    }
    if candidate == ' ' || !is_ascii_alnum(candidate) {
        return requested == candidate || requested == '-' || requested == '_';
    }
    requested == candidate
}

/// Whether a requested identifier matches a candidate identifier.
pub fn mod_id_matches(requested: &str, candidate: &str) -> (r: bool)
    ensures
        r == spec_mod_id_matches(requested@, candidate@),
{
    let n = requested.unicode_len();
    if n != candidate.unicode_len() {
        return false;
    }
    let mut i: usize = 0;
    while i < n
        invariant
            n == requested@.len(),
            n == candidate@.len(),
            i <= n,
            forall|j: int| 0 <= j < i ==> spec_char_matches(requested@[j], candidate@[j]),
        decreases n - i,
    {
        if !char_matches(requested.get_char(i), candidate.get_char(i)) {
            return false;
        }
        i = i + 1;
    }
    true
}

/// The candidates that `requested` matches, in candidate order.
pub fn matching_candidates(requested: &str, candidates: &[String]) -> (r: Vec<String>)
    ensures
        views(r@) == matching(views(candidates@), requested@),
{
    let ghost pred = |c: Seq<char>| spec_mod_id_matches(requested@, c);
    let mut r: Vec<String> = Vec::new();
    let n = candidates.len();
    proof {
        reveal(Seq::filter);
        assert(views(candidates@).take(0) =~= Seq::<Seq<char>>::empty());
        assert(views(r@) =~= views(candidates@).take(0).filter(pred));
    }
    for i in 0..n
        invariant
            n == candidates@.len(),
            pred == (|c: Seq<char>| spec_mod_id_matches(requested@, c)),
            views(r@) == views(candidates@).take(i as int).filter(pred),
    {
        let m = mod_id_matches(requested, candidates[i].as_str());
        proof {
            reveal(Seq::filter);
            let t = views(candidates@).take(i + 1);
            assert(t.drop_last() =~= views(candidates@).take(i as int));
            assert(t.last() == candidates@[i as int]@);
            assert(pred(t.last()) == m);
        }
        if m {
            let ghost before = views(r@);
            r.push(candidates[i].clone());
            proof {
                assert(views(r@) =~= before.push(candidates@[i as int]@));
            }
        }
    }
    proof {
        assert(views(candidates@).take(n as int) =~= views(candidates@));
    }
    r
}

/// Resolution fails at request `k`: every earlier request matches exactly one
/// candidate, and request `k` matches none (`NotFound`) or several
/// (`Ambiguous`, with its matches in ascending order).
pub open spec fn fails_at(
    requested: Seq<String>,
    candidates: Seq<Seq<char>>,
    k: int,
    e: ResolveError,
) -> bool {
    &&& 0 <= k < requested.len()
    &&& forall|j: int|
        0 <= j < k ==> #[trigger] matching(candidates, requested[j]@).len() == 1
    &&& match e {
        ResolveError::NotFound(id) => {
            &&& id@ == requested[k]@
            &&& matching(candidates, requested[k]@).len() == 0
        },
        ResolveError::Ambiguous(id, found) => {
            &&& id@ == requested[k]@
            &&& matching(candidates, requested[k]@).len() >= 2
            &&& is_sorted(views(found@))
            &&& views(found@).to_multiset() == matching(candidates, requested[k]@).to_multiset()
        },
    }
}

/// `r` is what resolving `requested` against `candidates` gives: in request
/// order, the one candidate each request matches, or the failure at the
/// first request that does not match exactly one candidate.
pub open spec fn resolves(
    requested: Seq<String>,
    candidates: Seq<Seq<char>>,
    r: Result<Vec<String>, ResolveError>,
) -> bool {
    match r {
        Ok(v) => {
            &&& v.len() == requested.len()
            &&& forall|k: int|
                0 <= k < requested.len() ==> matching(candidates, #[trigger] requested[k]@)
                    == seq![v@[k]@]
        },
        Err(e) => exists|k: int| #[trigger] fails_at(requested, candidates, k, e),
    }
}

/// Resolves each requested identifier to the one candidate it matches.
///
/// Succeeds exactly when every requested identifier matches exactly one
/// candidate, and then gives, in request order, the candidate each one
/// matches. Otherwise it reports the first requested identifier that matches
/// no candidate or several, the latter with its matches in ascending order.
pub fn resolve_mod_ids(requested_mods: &[String], candidates: &[String]) -> (r: Result<
    Vec<String>,
    ResolveError,
>)
    ensures
        resolves(requested_mods@, views(candidates@), r),
{
    let mut resolved: Vec<String> = Vec::new();
    let n = requested_mods.len();
    for k in 0..n
        invariant
            n == requested_mods@.len(),
            resolved.len() == k,
            forall|j: int|
                0 <= j < k ==> matching(views(candidates@), #[trigger] requested_mods@[j]@) == seq![
                    resolved@[j]@,
                ],
    {
        let found = matching_candidates(requested_mods[k].as_str(), candidates);
        if found.len() == 1 {
            proof {
                assert(views(found@) =~= seq![found@[0]@]);
            }
            resolved.push(found[0].clone());
        } else if found.len() == 0 {
            proof {
                assert forall|j: int| 0 <= j < k implies #[trigger] matching(
                    views(candidates@),
                    requested_mods@[j]@,
                ).len() == 1 by {
                    assert(matching(views(candidates@), requested_mods@[j]@) == seq![resolved@[j]@]);
                }
            }
            let e = ResolveError::NotFound(requested_mods[k].clone());
            assert(fails_at(requested_mods@, views(candidates@), k as int, e));
            return Err(e);
        } else {
            let sorted = sorted_strings(&found);
            proof {
                assert forall|j: int| 0 <= j < k implies #[trigger] matching(
                    views(candidates@),
                    requested_mods@[j]@,
                ).len() == 1 by {
                    assert(matching(views(candidates@), requested_mods@[j]@) == seq![resolved@[j]@]);
                }
            }
            let e = ResolveError::Ambiguous(requested_mods[k].clone(), sorted);
            assert(fails_at(requested_mods@, views(candidates@), k as int, e));
            return Err(e);
        }
    }
    Ok(resolved)
}

} // verus!

verus! {

/// Every identifier matches itself.
pub proof fn lemma_id_matches_itself(id: Seq<char>)
    ensures
        spec_mod_id_matches(id, id),
{
}

/// Any ASCII-case variant of a candidate matches it.
pub proof fn lemma_case_variant_matches(requested: Seq<char>, candidate: Seq<char>)
    requires
        requested.len() == candidate.len(),
        forall|i: int|
            0 <= i < requested.len() ==> spec_ascii_lower(#[trigger] requested[i]) == spec_ascii_lower(
                candidate[i],
            ),
    ensures
        spec_mod_id_matches(requested, candidate),
{
    assert forall|i: int| 0 <= i < requested.len() implies spec_char_matches(requested[i], candidate[i]) by {
        let a = requested[i];
        let c = candidate[i];
        assert(spec_ascii_lower(a) == spec_ascii_lower(c));
        if !spec_ascii_alpha(c) {
            crate::text::lemma_char_code_injective(a, c);
        }
    }
}

/// A request with `-` or `_` in place of each space or symbol of a
/// candidate (and the same other chars) matches it.
pub proof fn lemma_separator_variant_matches(requested: Seq<char>, candidate: Seq<char>)
    requires
        requested.len() == candidate.len(),
        forall|i: int|
            0 <= i < requested.len() ==> #[trigger] requested[i] == candidate[i] || (!spec_ascii_alnum(
                candidate[i],
            ) && (requested[i] == '-' || requested[i] == '_')),
    ensures
        spec_mod_id_matches(requested, candidate),
{
    assert forall|i: int| 0 <= i < requested.len() implies spec_char_matches(requested[i], candidate[i]) by {
        assert(requested[i] == candidate[i] || !spec_ascii_alnum(candidate[i]));
    }
}

} // verus!

verus! {

/// How often `x` occurs in the filtered `s`: as often as in `s` when it
/// passes the filter, else never.
proof fn lemma_filter_count<A>(s: Seq<A>, pred: spec_fn(A) -> bool, x: A)
    ensures
        s.filter(pred).to_multiset().count(x) == if pred(x) {
            s.to_multiset().count(x)
        } else {
            0
        },
    decreases s.len(),
{
    broadcast use vstd::seq_lib::group_to_multiset_ensures;

    reveal(Seq::filter);
    if s.len() > 0 {
        lemma_filter_count(s.drop_last(), pred, x);
        assert(s =~= s.drop_last().push(s.last()));
        vstd::seq_lib::to_multiset_build(s.drop_last(), s.last());
        let f = s.drop_last().filter(pred);
        if pred(s.last()) {
            vstd::seq_lib::to_multiset_build(f, s.last());
        }
    } else {
        assert(s.filter(pred) =~= s);
    }
}

/// Candidates holding the same identifiers, each as often, give every
/// request the same matches, each as often.
proof fn lemma_matching_permuted(c1: Seq<Seq<char>>, c2: Seq<Seq<char>>, requested: Seq<char>)
    requires
        c1.to_multiset() == c2.to_multiset(),
    ensures
        matching(c1, requested).to_multiset() == matching(c2, requested).to_multiset(),
{
    let pred = |c: Seq<char>| spec_mod_id_matches(requested, c);
    assert(matching(c1, requested).to_multiset() =~= matching(c2, requested).to_multiset()) by {
        assert forall|x: Seq<char>|
            matching(c1, requested).to_multiset().count(x) == matching(
                c2,
                requested,
            ).to_multiset().count(x) by {
            lemma_filter_count(c1, pred, x);
            lemma_filter_count(c2, pred, x);
        }
    }
}

/// A one-element sequence equals every sequence with the same elements.
proof fn lemma_singleton_permutation(s: Seq<Seq<char>>, t: Seq<Seq<char>>)
    requires
        s.to_multiset() == t.to_multiset(),
        s.len() == 1,
    ensures
        s == t,
{
    vstd::seq_lib::to_multiset_len(s);
    vstd::seq_lib::to_multiset_len(t);
    vstd::seq_lib::to_multiset_contains(t, t[0]);
    vstd::seq_lib::to_multiset_contains(s, t[0]);
    assert(s =~= t);
}

/// Two resolution results agree: the same identifiers, or the same failure.
pub open spec fn same_resolution(
    r1: Result<Vec<String>, ResolveError>,
    r2: Result<Vec<String>, ResolveError>,
) -> bool {
    match (r1, r2) {
        (Ok(v1), Ok(v2)) => views(v1@) == views(v2@),
        (Err(ResolveError::NotFound(a)), Err(ResolveError::NotFound(b))) => a@ == b@,
        (Err(ResolveError::Ambiguous(a, f1)), Err(ResolveError::Ambiguous(b, f2))) => {
            a@ == b@ && views(f1@) == views(f2@)
        },
        _ => false,
    }
}

/// Resolution does not depend on the order of the candidates: resolving the
/// same requests against two orderings of the same candidates gives the same
/// identifiers, or fails the same way at the same request.
pub proof fn lemma_resolution_ignores_candidate_order(
    requested: Seq<String>,
    c1: Seq<Seq<char>>,
    c2: Seq<Seq<char>>,
    r1: Result<Vec<String>, ResolveError>,
    r2: Result<Vec<String>, ResolveError>,
)
    requires
        c1.to_multiset() == c2.to_multiset(),
        resolves(requested, c1, r1),
        resolves(requested, c2, r2),
    ensures
        same_resolution(r1, r2),
{
    assert forall|q: Seq<char>|
        #![trigger matching(c1, q)]
        matching(c1, q).to_multiset() == matching(c2, q).to_multiset() && matching(c1, q).len()
            == matching(c2, q).len() by {
        lemma_matching_permuted(c1, c2, q);
        vstd::seq_lib::to_multiset_len(matching(c1, q));
        vstd::seq_lib::to_multiset_len(matching(c2, q));
    }
    match (r1, r2) {
        (Ok(v1), Ok(v2)) => {
            assert forall|k: int| 0 <= k < views(v1@).len() implies views(v1@)[k]
                == views(v2@)[k] by {
                let q = requested[k]@;
                assert(matching(c1, q) == seq![v1@[k]@]);
                assert(matching(c2, q) == seq![v2@[k]@]);
                assert(matching(c1, q).to_multiset() == matching(c2, q).to_multiset());
                lemma_singleton_permutation(matching(c1, q), matching(c2, q));
                assert(seq![v1@[k]@][0] == seq![v2@[k]@][0]);
            }
            assert(views(v1@) =~= views(v2@));
        },
        (Ok(v1), Err(e2)) => {
            let k = choose|k: int| #[trigger] fails_at(requested, c2, k, e2);
            let q = requested[k]@;
            assert(matching(c1, q) == seq![v1@[k]@]);
            assert(matching(c1, q).len() == matching(c2, q).len());
        },
        (Err(e1), Ok(v2)) => {
            let k = choose|k: int| #[trigger] fails_at(requested, c1, k, e1);
            let q = requested[k]@;
            assert(matching(c2, q) == seq![v2@[k]@]);
            assert(matching(c1, q).len() == matching(c2, q).len());
        },
        (Err(e1), Err(e2)) => {
            let k1 = choose|k: int| #[trigger] fails_at(requested, c1, k, e1);
            let k2 = choose|k: int| #[trigger] fails_at(requested, c2, k, e2);
            let q1 = requested[k1]@;
            let q2 = requested[k2]@;
            assert(matching(c1, q1).len() == matching(c2, q1).len());
            assert(matching(c1, q2).len() == matching(c2, q2).len());
            if k1 < k2 {
                assert(matching(c2, requested[k1]@).len() == 1);
            }
            if k2 < k1 {
                assert(matching(c1, requested[k2]@).len() == 1);
            }
            assert(k1 == k2);
            match (e1, e2) {
                (ResolveError::Ambiguous(a, f1), ResolveError::Ambiguous(b, f2)) => {
                    assert(matching(c1, q1).to_multiset() == matching(c2, q1).to_multiset());
                    crate::order::lemma_sorted_unique(views(f1@), views(f2@));
                },
                _ => {},
            }
        },
    }
}

} // verus!
