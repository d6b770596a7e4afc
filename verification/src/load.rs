use vstd::prelude::*;
use crate::state::StateTable;
use crate::text::views;

verus! {

/// A mod counts as pulled when the state records it and its archive is
/// present (`archive_present` is what the caller found on disk).
pub fn is_pulled(state: &StateTable, mod_id: &str, archive_present: bool) -> (r: bool)
    ensures
        r == (state@.dom().contains(mod_id@) && archive_present),
{
    state.contains_key(mod_id) && archive_present
}

/// The entries of `targets` that are not pulled, in order, where
/// `present[i]` tells whether the archive of `targets[i]` is on disk.
pub open spec fn unpulled(
    state: StateTable,
    targets: Seq<Seq<char>>,
    present: Seq<bool>,
) -> Seq<Seq<char>>
    decreases targets.len(),
{
    if targets.len() == 0 {
        Seq::empty()
    } else {
        let rest = unpulled(state, targets.drop_last(), present.take(targets.len() - 1));
        let t = targets.last();
        if state@.dom().contains(t) && present[targets.len() - 1] {
            rest
        } else {
            rest.push(t)
        }
    }
}

/// The mods of `targets` that are not pulled, in order; `archive_present[i]`
/// tells whether the archive of `targets[i]` is on disk.
pub fn missing_mods(state: &StateTable, targets: &[String], archive_present: &[bool]) -> (r: Vec<
    String,
>)
    requires
        targets.len() == archive_present.len(),
    ensures
        views(r@) == unpulled(*state, views(targets@), archive_present@),
{
    let mut r: Vec<String> = Vec::new();
    let n = targets.len();
    proof {
        assert(views(targets@).take(0) =~= Seq::<Seq<char>>::empty());
        assert(views(r@) =~= unpulled(*state, views(targets@).take(0), archive_present@.take(0)));
    }
    for i in 0..n
        invariant
            n == targets@.len(),
            n == archive_present@.len(),
            views(r@) == unpulled(*state, views(targets@).take(i as int), archive_present@.take(i as int)),
    {
        proof {
            let t = views(targets@).take(i + 1);
            assert(t.drop_last() =~= views(targets@).take(i as int));
            assert(archive_present@.take(i + 1).take(i as int) =~= archive_present@.take(i as int));
            assert(t.last() == targets@[i as int]@);
        }
        if !is_pulled(state, targets[i].as_str(), archive_present[i]) {
            let ghost before = views(r@);
            r.push(targets[i].clone());
            proof {
                assert(views(r@) =~= before.push(targets@[i as int]@));
            }
        }
    }
    proof {
        assert(views(targets@).take(n as int) =~= views(targets@));
        assert(archive_present@.take(n as int) =~= archive_present@);
    }
    r
}

} // verus!

verus! {

/// A target is reported as not pulled exactly when the state does not record
/// it or its archive is absent (whatever the record says), and nothing else
/// is reported.
pub proof fn lemma_missing_exactly_unpulled(
    state: StateTable,
    targets: Seq<Seq<char>>,
    present: Seq<bool>,
)
    requires
        targets.len() == present.len(),
    ensures
        forall|i: int|
            0 <= i < targets.len() && (!state@.dom().contains(targets[i]) || !present[i])
                ==> #[trigger] unpulled(state, targets, present).contains(targets[i]),
        forall|x: Seq<char>|
            #[trigger] unpulled(state, targets, present).contains(x) ==> exists|i: int|
                0 <= i < targets.len() && targets[i] == x && (!state@.dom().contains(x)
                    || !present[i]),
    decreases targets.len(),
{
    if targets.len() > 0 {
        let n = targets.len() - 1;
        let t0 = targets.drop_last();
        let p0 = present.take(n);
        lemma_missing_exactly_unpulled(state, t0, p0);
        let rest = unpulled(state, t0, p0);
        let r = unpulled(state, targets, present);
        let t = targets.last();
        assert(r == rest || r == rest.push(t));
        assert forall|x: Seq<char>| rest.contains(x) implies r.contains(x) by {
            let q = rest.index_of(x);
            assert(r[q] == x);
        }
        assert forall|i: int|
            0 <= i < targets.len() && (!state@.dom().contains(targets[i]) || !present[i])
                implies #[trigger] r.contains(targets[i]) by {
            if i < n {
                assert(t0[i] == targets[i] && p0[i] == present[i]);
                assert(rest.contains(t0[i]));
            } else {
                assert(r == rest.push(t));
                assert(r[rest.len() as int] == t);
            }
        }
        assert forall|x: Seq<char>| #[trigger] r.contains(x) implies exists|i: int|
            0 <= i < targets.len() && targets[i] == x && (!state@.dom().contains(x)
                || !present[i]) by {
            if rest.contains(x) {
                let i = choose|i: int|
                    0 <= i < t0.len() && t0[i] == x && (!state@.dom().contains(x) || !p0[i]);
                assert(targets[i] == x && present[i] == p0[i]);
            } else {
                let q = r.index_of(x);
                if q < rest.len() {
                    assert(rest[q] == x);
                }
                assert(r == rest.push(t));
                assert(x == t);
                assert(targets[n] == x);
            }
        }
    }
}

} // verus!
