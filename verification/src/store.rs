use vstd::prelude::*;

use crate::order::views;

verus! {

/// The links of `fresh` that are absent from `seen`, in the order they
/// appear in `fresh`.
pub open spec fn diff_seq(seen: Seq<Seq<char>>, fresh: Seq<Seq<char>>) -> Seq<Seq<char>>
    decreases fresh.len(),
{
    if fresh.len() == 0 {
        Seq::<Seq<char>>::empty()
    } else {
        let pre = diff_seq(seen, fresh.drop_last());
        if seen.contains(fresh.last()) {
            pre
        } else {
            pre.push(fresh.last())
        }
    }
}

/// No string occurs twice.
pub open spec fn unique(s: Seq<Seq<char>>) -> bool {
    forall|i: int, j: int| 0 <= i < j < s.len() ==> s[i] != s[j]
}

/// Whether one of the stored links is the given string.
pub fn contains_string(v: &Vec<String>, s: &String) -> (r: bool)
    ensures
        r == views(v@).contains(s@),
{
    let mut i: usize = 0;
    while i < v.len()
        invariant
            i <= v.len(),
            forall|j: int| 0 <= j < i ==> views(v@)[j] != s@,
        decreases v.len() - i,
    {
        if v[i].eq(s) {
            assert(views(v@)[i as int] == v@[i as int]@);
            return true;
        }
        assert(views(v@)[i as int] == v@[i as int]@);
        i = i + 1;
    }
    assert forall|j: int| 0 <= j < views(v@).len() implies views(v@)[j] != s@ by {}
    false
}

/// Returns, in the order they appear in `fresh`, every link not already
/// present in `seen`.
pub fn diff(seen: &Vec<String>, fresh: &Vec<String>) -> (r: Vec<String>)
    ensures
        views(r@) == diff_seq(views(seen@), views(fresh@)),
{
    let mut out: Vec<String> = Vec::new();
    let mut k: usize = 0;
    proof {
        assert(views(fresh@).take(0) =~= Seq::<Seq<char>>::empty());
        assert(views(out@) =~= Seq::<Seq<char>>::empty());
    }
    while k < fresh.len()
        invariant
            k <= fresh.len(),
            views(out@) == diff_seq(views(seen@), views(fresh@).take(k as int)),
        decreases fresh.len() - k,
    {
        let ghost pre = views(out@);
        if !contains_string(seen, &fresh[k]) {
            out.push(fresh[k].clone());
            proof {
                assert(views(out@) =~= pre.push(out@.last()@));
            }
        }
        proof {
            let cur = views(fresh@).take(k as int + 1);
            assert(cur.drop_last() =~= views(fresh@).take(k as int));
            assert(cur.last() == fresh@[k as int]@);
        }
        k = k + 1;
    }
    proof {
        assert(views(fresh@).take(fresh@.len() as int) =~= views(fresh@));
    }
    out
}

/// What the difference holds: exactly the fresh links that were not seen.
/// In particular the differ never reports a link already in the store.
pub proof fn lemma_diff_contains(seen: Seq<Seq<char>>, fresh: Seq<Seq<char>>)
    ensures
        forall|y: Seq<char>| #[trigger] diff_seq(seen, fresh).contains(y) <==> (fresh.contains(y)
            && !seen.contains(y)),
    decreases fresh.len(),
{
    let d = diff_seq(seen, fresh);
    if fresh.len() == 0 {
        assert forall|y: Seq<char>| #[trigger] d.contains(y) <==> (fresh.contains(y)
            && !seen.contains(y)) by {
            if d.contains(y) {
                let i = choose|i: int| 0 <= i < d.len() && d[i] == y;
            }
            if fresh.contains(y) {
                let i = choose|i: int| 0 <= i < fresh.len() && fresh[i] == y;
            }
        }
    } else {
        let fd = fresh.drop_last();
        lemma_diff_contains(seen, fd);
        let pre = diff_seq(seen, fd);
        assert forall|y: Seq<char>| #[trigger] d.contains(y) <==> (fresh.contains(y)
            && !seen.contains(y)) by {
            if d.contains(y) {
                let i = choose|i: int| 0 <= i < d.len() && d[i] == y;
                if i < pre.len() {
                    assert(pre.contains(y));
                    let m = choose|m: int| 0 <= m < fd.len() && fd[m] == y;
                    assert(fresh[m] == y);
                    assert(fresh.contains(y));
                } else {
                    assert(y == fresh.last());
                    assert(fresh.contains(y));
                }
            }
            if fresh.contains(y) && !seen.contains(y) {
                let i = choose|i: int| 0 <= i < fresh.len() && fresh[i] == y;
                if i < fresh.len() - 1 {
                    assert(fd[i] == y);
                    assert(fd.contains(y));
                    assert(pre.contains(y));
                    let m = choose|m: int| 0 <= m < pre.len() && pre[m] == y;
                    if !seen.contains(fresh.last()) {
                        assert(d == pre.push(fresh.last()));
                        assert(d[m] == y);
                    } else {
                        assert(d[m] == y);
                    }
                    assert(d.contains(y));
                } else {
                    assert(y == fresh.last());
                    assert(d == pre.push(y));
                    assert(d[d.len() - 1] == y);
                    assert(d.contains(y));
                }
            }
        }
    }
}

/// The difference holds no duplicates when the fresh links hold none.
pub proof fn lemma_diff_unique(seen: Seq<Seq<char>>, fresh: Seq<Seq<char>>)
    requires
        unique(fresh),
    ensures
        unique(diff_seq(seen, fresh)),
    decreases fresh.len(),
{
    if fresh.len() == 0 {
    } else {
        let fd = fresh.drop_last();
        assert(unique(fd)) by {
            assert forall|i: int, j: int| 0 <= i < j < fd.len() implies fd[i] != fd[j] by {
                assert(fd[i] == fresh[i]);
                assert(fd[j] == fresh[j]);
            }
        }
        lemma_diff_unique(seen, fd);
        lemma_diff_contains(seen, fd);
        let pre = diff_seq(seen, fd);
        if !seen.contains(fresh.last()) {
            let d = pre.push(fresh.last());
            assert forall|i: int, j: int| 0 <= i < j < d.len() implies d[i] != d[j] by {
                if j == d.len() - 1 {
                    assert(d[i] == pre[i]);
                    assert(pre.contains(pre[i]));
                    let m = choose|m: int| 0 <= m < fd.len() && fd[m] == pre[i];
                    assert(fresh[m] == pre[i]);
                    assert(fresh[m] != fresh.last());
                }
            }
        }
    }
}

/// A difference against a store that already holds every fresh link is empty.
pub proof fn lemma_diff_empty_when_seen(seen: Seq<Seq<char>>, fresh: Seq<Seq<char>>)
    requires
        forall|y: Seq<char>| #[trigger] fresh.contains(y) ==> seen.contains(y),
    ensures
        diff_seq(seen, fresh) == Seq::<Seq<char>>::empty(),
    decreases fresh.len(),
{
    if fresh.len() == 0 {
    } else {
        let fd = fresh.drop_last();
        assert forall|y: Seq<char>| #[trigger] fd.contains(y) implies seen.contains(y) by {
            let i = choose|i: int| 0 <= i < fd.len() && fd[i] == y;
            assert(fresh[i] == y);
            assert(fresh.contains(y));
        }
        lemma_diff_empty_when_seen(seen, fd);
        assert(fresh.contains(fresh.last()));
    }
}

/// An element of a concatenation comes from one of the parts.
pub proof fn lemma_concat_contains(a: Seq<Seq<char>>, b: Seq<Seq<char>>)
    ensures
        forall|y: Seq<char>| #[trigger] (a + b).contains(y) <==> (a.contains(y) || b.contains(y)),
{
    assert forall|y: Seq<char>| #[trigger] (a + b).contains(y) <==> (a.contains(y) || b.contains(
        y,
    )) by {
        if (a + b).contains(y) {
            let i = choose|i: int| 0 <= i < (a + b).len() && (a + b)[i] == y;
            if i < a.len() {
                assert(a[i] == y);
                assert(a.contains(y));
            } else {
                assert(b[i - a.len()] == y);
                assert(b.contains(y));
            }
        }
        if a.contains(y) {
            let i = choose|i: int| 0 <= i < a.len() && a[i] == y;
            assert((a + b)[i] == y);
            assert((a + b).contains(y));
        }
        if b.contains(y) {
            let i = choose|i: int| 0 <= i < b.len() && b[i] == y;
            assert((a + b)[a.len() + i] == y);
            assert((a + b).contains(y));
        }
    }
}

/// Appending links that are all new and duplicate-free keeps the store
/// duplicate-free.
pub proof fn lemma_concat_unique(a: Seq<Seq<char>>, b: Seq<Seq<char>>)
    requires
        unique(a),
        unique(b),
        forall|y: Seq<char>| #[trigger] b.contains(y) ==> !a.contains(y),
    ensures
        unique(a + b),
{
    assert forall|i: int, j: int| 0 <= i < j < (a + b).len() implies (a + b)[i] != (a + b)[j] by {
        if i < a.len() && j >= a.len() {
            let x = (a + b)[i];
            let y = (a + b)[j];
            assert(a[i] == x);
            assert(a.contains(x));
            assert(b[j - a.len()] == y);
            assert(b.contains(y));
        }
    }
}

/// Running the differ twice against the same extraction yields nothing the
/// second time: after the first run's new links are appended, every link of
/// the extraction is already in the store.
pub proof fn lemma_second_pass_empty(seen: Seq<Seq<char>>, fresh: Seq<Seq<char>>)
    ensures
        diff_seq(seen + diff_seq(seen, fresh), fresh) == Seq::<Seq<char>>::empty(),
{
    let d = diff_seq(seen, fresh);
    lemma_diff_contains(seen, fresh);
    lemma_concat_contains(seen, d);
    assert forall|y: Seq<char>| #[trigger] fresh.contains(y) implies (seen + d).contains(y) by {
        if !seen.contains(y) {
            assert(d.contains(y));
        }
    }
    lemma_diff_empty_when_seen(seen + d, fresh);
}

/// The store after a run of ticks, each appending the difference between the
/// store so far and the tick's links.
pub open spec fn store_after(seen: Seq<Seq<char>>, batches: Seq<Seq<Seq<char>>>) -> Seq<Seq<char>>
    decreases batches.len(),
{
    if batches.len() == 0 {
        seen
    } else {
        let pre = store_after(seen, batches.drop_last());
        pre + diff_seq(pre, batches.last())
    }
}

/// After any number of ticks the store holds exactly the pre-existing
/// entries together with the union of the links the ticks brought, and,
/// when the store and each tick's links were duplicate-free, no duplicates.
pub proof fn lemma_store_accumulates(seen: Seq<Seq<char>>, batches: Seq<Seq<Seq<char>>>)
    requires
        unique(seen),
        forall|b: int| 0 <= b < batches.len() ==> unique(#[trigger] batches[b]),
    ensures
        unique(store_after(seen, batches)),
        forall|y: Seq<char>| #[trigger] store_after(seen, batches).contains(y) <==> (seen.contains(
            y,
        ) || exists|b: int| 0 <= b < batches.len() && #[trigger] batches[b].contains(y)),
    decreases batches.len(),
{
    if batches.len() == 0 {
        assert forall|y: Seq<char>| #[trigger] store_after(seen, batches).contains(y) <==> (
        seen.contains(y) || exists|b: int|
            0 <= b < batches.len() && #[trigger] batches[b].contains(y)) by {}
    } else {
        let bd = batches.drop_last();
        assert forall|b: int| 0 <= b < bd.len() implies unique(#[trigger] bd[b]) by {
            assert(bd[b] == batches[b]);
        }
        lemma_store_accumulates(seen, bd);
        let pre = store_after(seen, bd);
        let last = batches.last();
        let d = diff_seq(pre, last);
        lemma_diff_contains(pre, last);
        assert(unique(last));
        lemma_diff_unique(pre, last);
        lemma_concat_unique(pre, d);
        lemma_concat_contains(pre, d);
        assert forall|y: Seq<char>| #[trigger] store_after(seen, batches).contains(y) <==> (
        seen.contains(y) || exists|b: int|
            0 <= b < batches.len() && #[trigger] batches[b].contains(y)) by {
            if store_after(seen, batches).contains(y) {
                if pre.contains(y) {
                    if !seen.contains(y) {
                        let b = choose|b: int| 0 <= b < bd.len() && #[trigger] bd[b].contains(y);
                        assert(batches[b].contains(y));
                    }
                } else {
                    assert(d.contains(y));
                    assert(last.contains(y));
                    assert(batches[batches.len() - 1].contains(y));
                }
            }
            if seen.contains(y) {
                assert(pre.contains(y));
            }
            if exists|b: int| 0 <= b < batches.len() && #[trigger] batches[b].contains(y) {
                let b = choose|b: int| 0 <= b < batches.len() && #[trigger] batches[b].contains(y);
                if b < batches.len() - 1 {
                    assert(bd[b] == batches[b]);
                    assert(bd[b].contains(y));
                    assert(pre.contains(y));
                } else {
                    assert(last.contains(y));
                    if !pre.contains(y) {
                        assert(d.contains(y));
                    }
                }
            }
        }
    }
}

} // verus!
