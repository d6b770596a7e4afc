use vstd::prelude::*;
use crate::pull::UpdateList;
use crate::text::{lemma_push_contains, views};

verus! {

/// The Unicode lower-case form of `s`, as `str::to_lowercase` computes it.
pub uninterp spec fn unicode_lowercase(s: Seq<char>) -> Seq<char>;

/// Lower-cases a string with `str::to_lowercase` (full Unicode case mapping,
/// independent of locale); the result is named, not described.
#[verifier::external_body]
fn lowercase(s: &str) -> (r: String)
    ensures
        r@ == unicode_lowercase(s@),
{
    s.to_lowercase()
}

/// The Levenshtein distance: the least number of single-char insertions,
/// deletions and substitutions that turn `a` into `b`.
pub open spec fn edit_distance(a: Seq<char>, b: Seq<char>) -> nat
    decreases a.len() + b.len(),
{
    if a.len() == 0 {
        b.len()
    } else if b.len() == 0 {
        a.len()
    } else {
        let sub = edit_distance(a.drop_last(), b.drop_last()) + if a.last() == b.last() {
            0nat
        } else {
            1nat
        };
        let del = edit_distance(a.drop_last(), b) + 1;
        let ins = edit_distance(a, b.drop_last()) + 1;
        if sub <= del && sub <= ins {
            sub
        } else if del <= ins {
            del
        } else {
            ins
        }
    }
}

/// Computes `strsim::levenshtein(a, b)`, which strsim documents as the
/// minimum number of insertions, deletions and substitutions (of chars) that
/// change one string into the other.
#[verifier::external_body]
fn levenshtein(a: &str, b: &str) -> (r: usize)
    ensures
        r == edit_distance(a@, b@),
{
    strsim::levenshtein(a, b)
}

/// `needle` occurs in `hay` as a contiguous run of chars.
pub open spec fn contains_substring(hay: Seq<char>, needle: Seq<char>) -> bool {
    exists|i: int| 0 <= i <= hay.len() - needle.len() && #[trigger] hay.subrange(i, i + needle.len()) == needle
}

/// Whether `needle` occurs in `hay`.
pub fn has_substring(hay: &str, needle: &str) -> (r: bool)
    ensures
        r == contains_substring(hay@, needle@),
{
    let n = hay.unicode_len();
    let m = needle.unicode_len();
    if m > n {
        return false;
    }
    let mut i: usize = 0;
    while i <= n - m
        invariant
            n == hay@.len(),
            m == needle@.len(),
            m <= n,
            i <= n - m + 1,
            forall|p: int| 0 <= p < i ==> #[trigger] hay@.subrange(p, p + m) != needle@,
        decreases n - m + 1 - i,
    {
        let mut j: usize = 0;
        while j < m && hay.get_char(i + j) == needle.get_char(j)
            invariant
                n == hay@.len(),
                m == needle@.len(),
                i + m <= n,
                j <= m,
                forall|q: int| 0 <= q < j ==> hay@[i + q] == needle@[q],
            decreases m - j,
        {
            j = j + 1;
        }
        if j == m {
            assert(hay@.subrange(i as int, i + m) =~= needle@);
            return true;
        }
        assert(hay@.subrange(i as int, i + m)[j as int] != needle@[j as int]);
        i = i + 1;
    }
    false
}

/// One search hit: the mod, its listed version and its GameBanana id.
pub struct SearchHit {
    pub mod_id: String,
    pub version: String,
    pub game_banana_id: u32,
}

/// What a search gives: the hits, or, when there is none, the names of the
/// mods most similar to the query.
pub enum SearchOutcome {
    Matches(Vec<SearchHit>),
    Suggestions(Vec<String>),
}

/// The mods whose lower-cased identifier contains the lower-cased query.
pub open spec fn search_hits(keys: Seq<Seq<char>>, query: Seq<char>) -> Seq<Seq<char>> {
    keys.filter(
        |k: Seq<char>| contains_substring(unicode_lowercase(k), unicode_lowercase(query)),
    )
}

/// The similarity of `id` to `query` as a fraction `d / m` of edits per
/// char that sorts the most similar first: `d` is the edit distance and `m`
/// the longer length (`0 / 1` when both are empty); strsim's normalized
/// Levenshtein similarity is `1 - d / m`.
pub open spec fn dissimilarity(query: Seq<char>, id: Seq<char>) -> (nat, nat) {
    let m = if query.len() >= id.len() {
        query.len()
    } else {
        id.len()
    };
    if m == 0 {
        (0, 1)
    } else {
        (edit_distance(query, id), m)
    }
}

/// `a` is strictly more similar to the query than `b`.
pub open spec fn more_similar(query: Seq<char>, a: Seq<char>, b: Seq<char>) -> bool {
    let (da, ma) = dissimilarity(query, a);
    let (db, mb) = dissimilarity(query, b);
    da * mb < db * ma
}

/// In the suggestion order the key at position `i` comes before the one at
/// `j`: it is more similar, or as similar and earlier in the table.
pub open spec fn ranks_before(keys: Seq<Seq<char>>, query: Seq<char>, i: int, j: int) -> bool {
    ||| more_similar(query, keys[i], keys[j])
    ||| (!more_similar(query, keys[j], keys[i]) && i < j)
}

proof fn lemma_fraction_trans(da: nat, ma: nat, db: nat, mb: nat, dc: nat, mc: nat, strict: bool)
    by (nonlinear_arith)
    requires
        ma > 0,
        mb > 0,
        mc > 0,
        da * mb <= db * ma,
        db * mc <= dc * mb,
        strict ==> da * mb < db * ma || db * mc < dc * mb,
    ensures
        da * mc <= dc * ma,
        strict ==> da * mc < dc * ma,
{
    assert(da * mb * mc <= db * ma * mc);
    assert(db * mc * ma <= dc * mb * ma);
}

proof fn lemma_ranks_before_trans(keys: Seq<Seq<char>>, query: Seq<char>, i: int, j: int, k: int)
    requires
        ranks_before(keys, query, i, j),
        ranks_before(keys, query, j, k),
    ensures
        ranks_before(keys, query, i, k),
{
    let (di, mi) = dissimilarity(query, keys[i]);
    let (dj, mj) = dissimilarity(query, keys[j]);
    let (dk, mk) = dissimilarity(query, keys[k]);
    assert(mi > 0 && mj > 0 && mk > 0);
    let sij = more_similar(query, keys[i], keys[j]);
    let sjk = more_similar(query, keys[j], keys[k]);
    lemma_fraction_trans(di, mi, dj, mj, dk, mk, sij || sjk);
    if !more_similar(query, keys[i], keys[k]) {
        lemma_fraction_trans(dk, mk, di, mi, dj, mj, false);
        lemma_fraction_trans(dj, mj, dk, mk, di, mi, false);
    }
}

/// The suggestions: the first `min(3, n)` keys in the suggestion order.
pub open spec fn is_top_suggestions(keys: Seq<Seq<char>>, query: Seq<char>, picks: Seq<int>) -> bool {
    &&& picks.len() == if keys.len() < 3 {
        keys.len()
    } else {
        3
    }
    &&& forall|t: int| 0 <= t < picks.len() ==> 0 <= #[trigger] picks[t] < keys.len()
    &&& forall|t: int, s: int|
        0 <= t < s < picks.len() ==> ranks_before(keys, query, #[trigger] picks[t], #[trigger] picks[s])
    &&& forall|t: int, j: int|
        0 <= t < picks.len() && 0 <= j < keys.len() && !picks.contains(j) ==> #[trigger] ranks_before(
            keys,
            query,
            picks[t],
            j,
        )
}


/// The similarity fraction of `key` to `query` (see `dissimilarity`).
fn dissimilarity_of(query: &str, key: &str) -> (r: (usize, usize))
    ensures
        (r.0 as nat, r.1 as nat) == dissimilarity(query@, key@),
{
    let lq = query.unicode_len();
    let lk = key.unicode_len();
    let m = if lq >= lk {
        lq
    } else {
        lk
    };
    if m == 0 {
        (0, 1)
    } else {
        (levenshtein(query, key), m)
    }
}

/// Whether `a` is strictly more similar than `b`, given their fractions.
fn fraction_less(a: (usize, usize), b: (usize, usize)) -> (r: bool)
    ensures
        r == ((a.0 as nat * b.1 as nat) < (b.0 as nat * a.1 as nat)),
{
    let a0 = a.0 as u128;
    let a1 = a.1 as u128;
    let b0 = b.0 as u128;
    let b1 = b.1 as u128;
    assert(a0 * b1 <= 0xffff_ffff_ffff_ffff * 0xffff_ffff_ffff_ffffu128) by (nonlinear_arith)
        requires
            a0 <= 0xffff_ffff_ffff_ffff,
            b1 <= 0xffff_ffff_ffff_ffff,
    ;
    assert(b0 * a1 <= 0xffff_ffff_ffff_ffff * 0xffff_ffff_ffff_ffffu128) by (nonlinear_arith)
        requires
            b0 <= 0xffff_ffff_ffff_ffff,
            a1 <= 0xffff_ffff_ffff_ffff,
    ;
    let x = a0 * b1;
    let y = b0 * a1;
    x < y
}

/// Positions of the keys most similar to `query`, best first (see
/// `is_top_suggestions`).
fn top_suggestions(keys: &Vec<String>, query: &str) -> (picks: Vec<usize>)
    ensures
        is_top_suggestions(views(keys@), query@, Seq::new(picks@.len(), |t: int| picks@[t] as int)),
{
    let ghost ks = views(keys@);
    let n = keys.len();
    let mut fracs: Vec<(usize, usize)> = Vec::new();
    for i in 0..n
        invariant
            n == keys@.len(),
            ks == views(keys@),
            fracs.len() == i,
            forall|q: int|
                0 <= q < i ==> (#[trigger] fracs@[q].0 as nat, fracs@[q].1 as nat) == dissimilarity(
                    query@,
                    ks[q],
                ),
    {
        fracs.push(dissimilarity_of(query, keys[i].as_str()));
    }
    let goal: usize = if n < 3 {
        n
    } else {
        3
    };
    let mut picks: Vec<usize> = Vec::new();
    let mut picked: Vec<bool> = Vec::new();
    for i in 0..n
        invariant
            picked.len() == i,
            forall|q: int| 0 <= q < i ==> !#[trigger] picked@[q],
    {
        picked.push(false);
    }
    while picks.len() < goal
        invariant
            n == keys@.len(),
            ks == views(keys@),
            goal <= n,
            goal == (if n < 3 { n } else { 3 }),
            picks.len() <= goal,
            fracs.len() == n,
            picked.len() == n,
            forall|q: int|
                0 <= q < n ==> (#[trigger] fracs@[q].0 as nat, fracs@[q].1 as nat) == dissimilarity(
                    query@,
                    ks[q],
                ),
            forall|t: int| 0 <= t < picks.len() ==> #[trigger] picks@[t] < n,
            forall|q: int| 0 <= q < n ==> (#[trigger] picked@[q] <==> picks@.contains(q as usize)),
            picks@.no_duplicates(),
            forall|t: int, s: int|
                0 <= t < s < picks.len() ==> ranks_before(ks, query@, #[trigger] picks@[t] as int, #[trigger] picks@[s] as int),
            forall|t: int, j: int|
                0 <= t < picks.len() && 0 <= j < n && !picked@[j] ==> #[trigger] ranks_before(
                    ks,
                    query@,
                    picks@[t] as int,
                    j,
                ),
        decreases goal - picks.len(),
    {
        proof {
            let ps = picks@.map_values(|p: usize| p as int);
            let range = vstd::set_lib::set_int_range(0, n as int);
            assert(ps.no_duplicates()) by {
                assert forall|a: int, b: int| 0 <= a < ps.len() && 0 <= b < ps.len() && a != b implies ps[a] != ps[b] by {
                    assert(picks@[a] != picks@[b]);
                }
            }
            ps.unique_seq_to_set();
            vstd::set_lib::lemma_int_range(0, n as int);
            if forall|j: int| 0 <= j < n ==> picked@[j] {
                assert(range.subset_of(ps.to_set())) by {
                    assert forall|j: int| range.contains(j) implies ps.to_set().contains(j) by {
                        assert(picked@[j]);
                        let t = picks@.index_of(j as usize);
                        assert(ps[t] == j);
                    }
                }
                vstd::set_lib::lemma_len_subset(range, ps.to_set());
                assert(false);
            }
        }
        let mut best: usize = n;
        for j in 0..n
            invariant
                n == keys@.len(),
                ks == views(keys@),
                fracs.len() == n,
                picked.len() == n,
                forall|q: int|
                    0 <= q < n ==> (#[trigger] fracs@[q].0 as nat, fracs@[q].1 as nat) == dissimilarity(
                        query@,
                        ks[q],
                    ),
                best == n || (best < j && !picked@[best as int]),
                best == n ==> forall|q: int| 0 <= q < j ==> #[trigger] picked@[q],
                best < n ==> forall|q: int|
                    0 <= q < j && !picked@[q] && q != best ==> #[trigger] ranks_before(ks, query@, best as int, q),
        {
            if !picked[j] {
                if best == n {
                    best = j;
                } else {
                    let better = fraction_less(fracs[j], fracs[best]) || (!fraction_less(
                        fracs[best],
                        fracs[j],
                    ) && j < best);
                    proof {
                        assert(better == ranks_before(ks, query@, j as int, best as int));
                    }
                    if better {
                        proof {
                            assert forall|q: int|
                                0 <= q < j + 1 && !picked@[q] && q != j implies #[trigger] ranks_before(ks, query@, j as int, q) by {
                                if q != best as int {
                                    lemma_ranks_before_trans(ks, query@, j as int, best as int, q);
                                }
                            }
                        }
                        best = j;
                    } else {
                        proof {
                            assert(ranks_before(ks, query@, best as int, j as int));
                        }
                    }
                }
            }
        }
        proof {
            assert(best < n);
        }
        let ghost old_picks = picks@;
        let ghost old_picked = picked@;
        picks.push(best);
        picked.set(best, true);
        proof {
            lemma_push_contains(old_picks, best);
            assert forall|q: int| 0 <= q < n implies (#[trigger] picked@[q] <==> picks@.contains(q as usize)) by {
                if q != best as int {
                    assert(picked@[q] == old_picked[q]);
                }
            }
            assert(picks@.no_duplicates()) by {
                assert(!old_picks.contains(best));
                assert forall|a: int, b: int| 0 <= a < picks@.len() && 0 <= b < picks@.len() && a != b implies picks@[a] != picks@[b] by {
                    if a == old_picks.len() as int {
                        assert(old_picks[b] == picks@[b]);
                    } else if b == old_picks.len() as int {
                        assert(old_picks[a] == picks@[a]);
                    }
                }
            }
            assert forall|t: int, s2: int|
                0 <= t < s2 < picks.len() implies ranks_before(ks, query@, #[trigger] picks@[t] as int, #[trigger] picks@[s2] as int) by {
                if s2 == old_picks.len() as int {
                    assert(!old_picked[best as int]);
                    assert(ranks_before(ks, query@, old_picks[t] as int, best as int));
                } else {
                    assert(old_picks[t] == picks@[t]);
                    assert(old_picks[s2] == picks@[s2]);
                }
            }
            assert forall|t: int, j: int|
                0 <= t < picks.len() && 0 <= j < n && !picked@[j] implies #[trigger] ranks_before(ks, query@, picks@[t] as int, j) by {
                assert(j != best as int);
                assert(!old_picked[j]);
                if t < old_picks.len() {
                    assert(old_picks[t] == picks@[t]);
                }
            }
        }
    }
    proof {
        let ps = Seq::new(picks@.len(), |t: int| picks@[t] as int);
        assert forall|t: int, j: int|
            0 <= t < ps.len() && 0 <= j < ks.len() && !ps.contains(j) implies #[trigger] ranks_before(
                ks,
                query@,
                ps[t],
                j,
            ) by {
            if picked@[j] {
                let x = picks@.index_of(j as usize);
                assert(ps[x] == j);
            }
        }
        assert forall|t: int, s2: int|
            0 <= t < s2 < ps.len() implies ranks_before(ks, query@, #[trigger] ps[t], #[trigger] ps[s2]) by {
            assert(ranks_before(ks, query@, picks@[t] as int, picks@[s2] as int));
        }
        assert forall|t: int| 0 <= t < ps.len() implies 0 <= #[trigger] ps[t] < ks.len() by {
            assert(picks@[t] < n);
        }
    }
    picks
}


/// The keys at the given positions.
pub open spec fn keys_at(keys: Seq<Seq<char>>, picks: Seq<int>) -> Seq<Seq<char>> {
    Seq::new(picks.len(), |t: int| keys[picks[t]])
}

/// Searches the update list: the mods whose lower-cased identifier contains
/// the lower-cased query, in table order with their listed version and
/// GameBanana id; when there is none, the (up to) three mods most similar to
/// the query by normalized Levenshtein similarity, best first, ties in
/// table order.
pub fn search_mods(update_list: &UpdateList, query: &str) -> (r: SearchOutcome)
    ensures
        ({
            let keys = update_list.key_seq();
            let hits = search_hits(keys, query@);
            match r {
                SearchOutcome::Matches(v) => {
                    &&& hits.len() > 0
                    &&& v.len() == hits.len()
                    &&& forall|i: int|
                        0 <= i < v.len() ==> {
                            &&& (#[trigger] v@[i]).mod_id@ == hits[i]
                            &&& v@[i].version@ == update_list@[hits[i]].version@
                            &&& v@[i].game_banana_id == update_list@[hits[i]].game_banana_id
                        }
                },
                SearchOutcome::Suggestions(names) => {
                    &&& hits.len() == 0
                    &&& exists|picks: Seq<int>|
                        #[trigger] is_top_suggestions(keys, query@, picks) && views(names@)
                            == keys_at(keys, picks)
                },
            }
        }),
{
    let ghost keys = update_list.key_seq();
    let ghost lq = unicode_lowercase(query@);
    let ghost pred = |k: Seq<char>| contains_substring(unicode_lowercase(k), lq);
    let n = update_list.len();
    let query_lower = lowercase(query);
    let mut hits: Vec<SearchHit> = Vec::new();
    let ghost hit_ids = Seq::<Seq<char>>::empty();
    proof {
        reveal(Seq::filter);
        assert(keys.take(0) =~= Seq::<Seq<char>>::empty());
    }
    for i in 0..n
        invariant
            n == keys.len(),
            keys == update_list.key_seq(),
            update_list.table_wf(),
            query_lower@ == lq,
            lq == unicode_lowercase(query@),
            pred == (|k: Seq<char>| contains_substring(unicode_lowercase(k), lq)),
            hits.len() == keys.take(i as int).filter(pred).len(),
            forall|q: int|
                0 <= q < hits.len() ==> {
                    &&& (#[trigger] hits@[q]).mod_id@ == keys.take(i as int).filter(pred)[q]
                    &&& hits@[q].version@ == update_list@[hits@[q].mod_id@].version@
                    &&& hits@[q].game_banana_id == update_list@[hits@[q].mod_id@].game_banana_id
                },
    {
        let key = update_list.key_at(i);
        let id_lower = lowercase(key.as_str());
        let hit = has_substring(id_lower.as_str(), query_lower.as_str());
        let ghost before = keys.take(i as int).filter(pred);
        proof {
            reveal(Seq::filter);
            let t = keys.take(i + 1);
            assert(t.drop_last() =~= keys.take(i as int));
            assert(t.last() == key@);
            assert(pred(t.last()) == hit);
        }
        if hit {
            let info = update_list.value_at(i);
            hits.push(SearchHit {
                mod_id: key.clone(),
                version: info.version.clone(),
                game_banana_id: info.game_banana_id,
            });
            proof {
                assert(keys.take(i + 1).filter(pred) == before.push(key@));
            }
        }
    }
    proof {
        assert(keys.take(n as int) =~= keys);
    }
    if hits.len() > 0 {
        return SearchOutcome::Matches(hits);
    }
    let all_keys = update_list.keys();
    let picks = top_suggestions(&all_keys, query);
    let mut names: Vec<String> = Vec::new();
    let m = picks.len();
    proof {
        assert(views(all_keys@) =~= keys);
    }
    for t in 0..m
        invariant
            m == picks@.len(),
            keys == views(all_keys@),
            is_top_suggestions(keys, query@, Seq::new(picks@.len(), |q: int| picks@[q] as int)),
            names.len() == t,
            forall|q: int| 0 <= q < t ==> #[trigger] names@[q]@ == keys[picks@[q] as int],
    {
        assert(picks@[t as int] < all_keys.len()) by {
            let ps = Seq::new(picks@.len(), |q: int| picks@[q] as int);
            assert(0 <= ps[t as int] < keys.len());
        }
        names.push(all_keys[picks[t]].clone());
    }
    proof {
        let ps = Seq::new(picks@.len(), |q: int| picks@[q] as int);
        assert(views(names@) =~= keys_at(keys, ps));
    }
    SearchOutcome::Suggestions(names)
}

} // verus!
