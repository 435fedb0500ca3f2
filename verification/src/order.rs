use vstd::prelude::*;

verus! {

/// Strict lexicographic order on character sequences: `a` comes before `b`
/// when `a` is a proper prefix of `b`, or the first differing character of
/// `a` is the smaller one.
pub open spec fn lex_lt(a: Seq<char>, b: Seq<char>) -> bool
    decreases a.len(),
{
    if b.len() == 0 {
        false
    } else if a.len() == 0 {
        true
    } else if a[0] != b[0] {
        (a[0] as int) < (b[0] as int)
    } else {
        lex_lt(a.drop_first(), b.drop_first())
    }
}

/// Any two character sequences are comparable: one is smaller, or they are equal.
pub proof fn lemma_lex_trichotomy(a: Seq<char>, b: Seq<char>)
    ensures
        lex_lt(a, b) || lex_lt(b, a) || a == b,
    decreases a.len(),
{
    if b.len() == 0 {
        if a.len() == 0 {
            assert(a =~= b);
        }
    } else if a.len() == 0 {
    } else if a[0] != b[0] {
    } else {
        lemma_lex_trichotomy(a.drop_first(), b.drop_first());
        if a.drop_first() == b.drop_first() {
            assert(a =~= b) by {
                assert(a.drop_first().len() == b.drop_first().len());
                assert(a.len() == b.len());
                assert forall|i: int| 0 <= i < a.len() implies a[i] == b[i] by {
                    if i > 0 {
                        assert(a[i] == a.drop_first()[i - 1]);
                        assert(b[i] == b.drop_first()[i - 1]);
                    }
                }
            }
        }
    }
}

/// The order is asymmetric; in particular no sequence is below itself,
/// and comparable sequences are distinct.
pub proof fn lemma_lex_asym(a: Seq<char>, b: Seq<char>)
    requires
        lex_lt(a, b),
    ensures
        !lex_lt(b, a),
        a != b,
    decreases a.len(),
{
    if a.len() == 0 {
    } else if a[0] != b[0] {
    } else {
        lemma_lex_asym(a.drop_first(), b.drop_first());
        assert(a != b) by {
            if a == b {
                assert(a.drop_first() =~= b.drop_first());
            }
        }
    }
}

/// The order is transitive.
pub proof fn lemma_lex_trans(a: Seq<char>, b: Seq<char>, c: Seq<char>)
    requires
        lex_lt(a, b),
        lex_lt(b, c),
    ensures
        lex_lt(a, c),
    decreases a.len(),
{
    if b.len() == 0 || c.len() == 0 {
    } else if a.len() == 0 {
    } else if a[0] == b[0] && b[0] == c[0] {
        lemma_lex_trans(a.drop_first(), b.drop_first(), c.drop_first());
    }
}

/// Compares two strings in the lexicographic order of their character
/// sequences.
pub fn str_lt(a: &str, b: &str) -> (r: bool)
    ensures
        r == lex_lt(a@, b@),
{
    let alen = a.unicode_len();
    let blen = b.unicode_len();
    let mut i: usize = 0;
    proof {
        assert(a@.skip(0) =~= a@);
        assert(b@.skip(0) =~= b@);
    }
    loop
        invariant
            i <= alen,
            i <= blen,
            alen == a@.len(),
            blen == b@.len(),
            lex_lt(a@, b@) == lex_lt(a@.skip(i as int), b@.skip(i as int)),
        decreases alen - i,
    {
        if i == blen {
            assert(b@.skip(i as int).len() == 0);
            return false;
        }
        if i == alen {
            assert(a@.skip(i as int).len() == 0);
            return true;
        }
        let ca = a.get_char(i);
        let cb = b.get_char(i);
        if ca != cb {
            assert(a@.skip(i as int)[0] == a@[i as int]);
            assert(b@.skip(i as int)[0] == b@[i as int]);
            return (ca as u32) < (cb as u32);
        }
        proof {
            assert(a@.skip(i as int).drop_first() =~= a@.skip(i as int + 1));
            assert(b@.skip(i as int).drop_first() =~= b@.skip(i as int + 1));
        }
        i = i + 1;
    }
}

/// The character sequences of a sequence of strings.
pub open spec fn views(v: Seq<String>) -> Seq<Seq<char>> {
    v.map_values(|s: String| s@)
}

/// Every element is strictly below the next: sorted and free of duplicates.
pub open spec fn strictly_sorted(s: Seq<Seq<char>>) -> bool {
    forall|i: int, j: int| 0 <= i < j < s.len() ==> lex_lt(s[i], s[j])
}

/// A strictly sorted sequence holds no element twice.
pub proof fn lemma_strictly_sorted_unique(s: Seq<Seq<char>>)
    requires
        strictly_sorted(s),
    ensures
        forall|i: int, j: int| 0 <= i < j < s.len() ==> s[i] != s[j],
{
    assert forall|i: int, j: int| 0 <= i < j < s.len() implies s[i] != s[j] by {
        lemma_lex_asym(s[i], s[j]);
    }
}

/// Where a string lands when it is inserted into a sorted sequence that may
/// already hold it: before the first element it is below, or nowhere at all
/// when that element equals it.
pub open spec fn insert_sorted_spec(s: Seq<Seq<char>>, x: Seq<char>) -> Seq<Seq<char>>
    decreases s.len(),
{
    if s.len() == 0 {
        seq![x]
    } else if x == s[0] {
        s
    } else if lex_lt(x, s[0]) {
        seq![x] + s
    } else {
        seq![s[0]] + insert_sorted_spec(s.drop_first(), x)
    }
}

/// The strings of a sequence, in lexicographic order with exact duplicates
/// removed.
pub open spec fn sort_dedup_spec(s: Seq<Seq<char>>) -> Seq<Seq<char>>
    decreases s.len(),
{
    if s.len() == 0 {
        Seq::<Seq<char>>::empty()
    } else {
        insert_sorted_spec(sort_dedup_spec(s.drop_last()), s.last())
    }
}

/// Inserting preserves strict sortedness and adds exactly the new string to
/// the elements.
pub proof fn lemma_insert_sorted_properties(s: Seq<Seq<char>>, x: Seq<char>)
    requires
        strictly_sorted(s),
    ensures
        strictly_sorted(insert_sorted_spec(s, x)),
        forall|y: Seq<char>| #[trigger] insert_sorted_spec(s, x).contains(y) <==> (s.contains(y)
            || y == x),
    decreases s.len(),
{
    let r = insert_sorted_spec(s, x);
    if s.len() == 0 {
        assert forall|y: Seq<char>| #[trigger] r.contains(y) <==> (s.contains(y) || y == x) by {
            assert(r[0] == x);
            if y == x {
                assert(r.contains(y));
            }
        }
    } else if x == s[0] {
        assert forall|y: Seq<char>| #[trigger] r.contains(y) <==> (s.contains(y) || y == x) by {
            if y == x {
                assert(s[0] == y);
                assert(s.contains(y));
            }
        }
    } else if lex_lt(x, s[0]) {
        assert(strictly_sorted(r)) by {
            assert forall|i: int, j: int| 0 <= i < j < r.len() implies lex_lt(r[i], r[j]) by {
                if i == 0 {
                    assert(r[0] == x);
                    assert(r[j] == s[j - 1]);
                    if j > 1 {
                        lemma_lex_trans(x, s[0], s[j - 1]);
                    }
                } else {
                    assert(r[i] == s[i - 1]);
                    assert(r[j] == s[j - 1]);
                }
            }
        }
        assert forall|y: Seq<char>| #[trigger] r.contains(y) <==> (s.contains(y) || y == x) by {
            if r.contains(y) {
                let i = choose|i: int| 0 <= i < r.len() && r[i] == y;
                if i == 0 {
                    assert(y == x);
                } else {
                    assert(s[i - 1] == y);
                    assert(s.contains(y));
                }
            }
            if y == x {
                assert(r[0] == y);
                assert(r.contains(y));
            }
            if s.contains(y) {
                let i = choose|i: int| 0 <= i < s.len() && s[i] == y;
                assert(r[i + 1] == y);
                assert(r.contains(y));
            }
        }
    } else {
        let sd = s.drop_first();
        assert(strictly_sorted(sd)) by {
            assert forall|i: int, j: int| 0 <= i < j < sd.len() implies lex_lt(sd[i], sd[j]) by {
                assert(sd[i] == s[i + 1]);
                assert(sd[j] == s[j + 1]);
            }
        }
        lemma_insert_sorted_properties(sd, x);
        lemma_lex_trichotomy(x, s[0]);
        assert(lex_lt(s[0], x));
        let rd = insert_sorted_spec(sd, x);
        assert(r == seq![s[0]] + rd);
        assert(strictly_sorted(r)) by {
            assert forall|i: int, j: int| 0 <= i < j < r.len() implies lex_lt(r[i], r[j]) by {
                if i == 0 {
                    assert(r[j] == rd[j - 1]);
                    assert(rd.contains(rd[j - 1]));
                    if sd.contains(rd[j - 1]) {
                        let m = choose|m: int| 0 <= m < sd.len() && sd[m] == rd[j - 1];
                        assert(sd[m] == s[m + 1]);
                        assert(lex_lt(s[0], s[m + 1]));
                    } else {
                        assert(rd[j - 1] == x);
                    }
                    assert(r[0] == s[0]);
                } else {
                    assert(r[i] == rd[i - 1]);
                    assert(r[j] == rd[j - 1]);
                }
            }
        }
        assert forall|y: Seq<char>| #[trigger] r.contains(y) <==> (s.contains(y) || y == x) by {
            if r.contains(y) {
                let i = choose|i: int| 0 <= i < r.len() && r[i] == y;
                if i == 0 {
                    assert(s[0] == y);
                    assert(s.contains(y));
                } else {
                    assert(rd[i - 1] == y);
                    assert(rd.contains(y));
                    if sd.contains(y) {
                        let m = choose|m: int| 0 <= m < sd.len() && sd[m] == y;
                        assert(s[m + 1] == y);
                        assert(s.contains(y));
                    }
                }
            }
            if y == x {
                assert(rd.contains(y));
                let m = choose|m: int| 0 <= m < rd.len() && rd[m] == y;
                assert(r[m + 1] == y);
                assert(r.contains(y));
            }
            if s.contains(y) {
                let i = choose|i: int| 0 <= i < s.len() && s[i] == y;
                if i == 0 {
                    assert(r[0] == y);
                    assert(r.contains(y));
                } else {
                    assert(sd[i - 1] == y);
                    assert(sd.contains(y));
                    assert(rd.contains(y));
                    let m = choose|m: int| 0 <= m < rd.len() && rd[m] == y;
                    assert(r[m + 1] == y);
                    assert(r.contains(y));
                }
            }
        }
    }
}

/// Sorting with deduplication yields a strictly sorted sequence with exactly
/// the elements of the input.
pub proof fn lemma_sort_dedup_properties(s: Seq<Seq<char>>)
    ensures
        strictly_sorted(sort_dedup_spec(s)),
        forall|y: Seq<char>| #[trigger] sort_dedup_spec(s).contains(y) <==> s.contains(y),
    decreases s.len(),
{
    if s.len() == 0 {
        assert forall|y: Seq<char>| #[trigger] sort_dedup_spec(s).contains(y) <==> s.contains(
            y,
        ) by {
            if sort_dedup_spec(s).contains(y) {
                let i = choose|i: int| 0 <= i < sort_dedup_spec(s).len() && sort_dedup_spec(s)[i]
                    == y;
            }
            if s.contains(y) {
                let i = choose|i: int| 0 <= i < s.len() && s[i] == y;
            }
        }
    } else {
        let sd = s.drop_last();
        lemma_sort_dedup_properties(sd);
        lemma_insert_sorted_properties(sort_dedup_spec(sd), s.last());
        assert forall|y: Seq<char>| #[trigger] sort_dedup_spec(s).contains(y) <==> s.contains(
            y,
        ) by {
            if sort_dedup_spec(s).contains(y) {
                if sd.contains(y) {
                    let i = choose|i: int| 0 <= i < sd.len() && sd[i] == y;
                    assert(s[i] == y);
                    assert(s.contains(y));
                } else if y == s.last() {
                    assert(s.contains(y));
                }
            }
            if s.contains(y) {
                let i = choose|i: int| 0 <= i < s.len() && s[i] == y;
                if i < s.len() - 1 {
                    assert(sd[i] == y);
                    assert(sd.contains(y));
                } else {
                    assert(y == s.last());
                }
            }
        }
    }
}

/// How the recursive insertion reads at the index an in-order search finds:
/// the first position whose element is not below the new string.
proof fn lemma_insert_sorted_spec_at(s: Seq<Seq<char>>, x: Seq<char>, i: int)
    requires
        0 <= i <= s.len(),
        forall|j: int| 0 <= j < i ==> lex_lt(#[trigger] s[j], x),
        i < s.len() ==> !lex_lt(s[i], x),
    ensures
        (i < s.len() && s[i] == x) ==> insert_sorted_spec(s, x) == s,
        !(i < s.len() && s[i] == x) ==> insert_sorted_spec(s, x) == s.take(i) + seq![x] + s.skip(
            i,
        ),
    decreases i,
{
    if s.len() == 0 {
        assert(insert_sorted_spec(s, x) =~= s.take(i) + seq![x] + s.skip(i));
    } else if i == 0 {
        if s[0] == x {
        } else {
            lemma_lex_trichotomy(x, s[0]);
            assert(lex_lt(x, s[0]));
            assert(seq![x] + s =~= s.take(0) + seq![x] + s.skip(0));
        }
    } else {
        assert(lex_lt(s[0], x));
        lemma_lex_asym(s[0], x);
        let sd = s.drop_first();
        assert forall|j: int| 0 <= j < i - 1 implies lex_lt(#[trigger] sd[j], x) by {
            assert(sd[j] == s[j + 1]);
        }
        assert(i - 1 < sd.len() ==> sd[i - 1] == s[i]);
        lemma_insert_sorted_spec_at(sd, x, i - 1);
        if i < s.len() && s[i] == x {
            assert(insert_sorted_spec(sd, x) == sd);
            assert(insert_sorted_spec(s, x) =~= s);
        } else {
            assert(insert_sorted_spec(sd, x) == sd.take(i - 1) + seq![x] + sd.skip(i - 1));
            assert(insert_sorted_spec(s, x) =~= s.take(i) + seq![x] + s.skip(i)) by {
                assert forall|m: int|
                    0 <= m < (s.take(i) + seq![x] + s.skip(i)).len() implies (seq![s[0]]
                    + insert_sorted_spec(sd, x))[m] == (s.take(i) + seq![x] + s.skip(i))[m] by {
                    if m > 0 {
                        assert((seq![s[0]] + insert_sorted_spec(sd, x))[m] == (sd.take(i - 1)
                            + seq![x] + sd.skip(i - 1))[m - 1]);
                        if m - 1 < i - 1 {
                            assert(sd[m - 1] == s[m]);
                        } else if m - 1 > i - 1 {
                            assert(sd.skip(i - 1)[m - 1 - i] == sd[m - 2]);
                            assert(sd[m - 2] == s[m - 1]);
                            assert(s.skip(i)[m - 1 - i] == s[m - 1]);
                        }
                    }
                }
            }
        }
    }
}

/// Inserts a string into a sorted, duplicate-free vector, keeping it sorted
/// and dropping the string when an equal one is already present.
pub fn insert_unique_sorted(v: &mut Vec<String>, s: String)
    ensures
        views(final(v)@) == insert_sorted_spec(views(old(v)@), s@),
{
    let ghost vs = views(old(v)@);
    let mut i: usize = 0;
    let mut stop = false;
    while !stop
        invariant
            *v == *old(v),
            i <= v.len(),
            vs == views(v@),
            vs.len() == v.len(),
            forall|j: int| 0 <= j < i ==> lex_lt(#[trigger] vs[j], s@),
            stop ==> (i == v.len() || !lex_lt(vs[i as int], s@)),
        decreases v.len() - i, (if stop { 0int } else { 1int }),
    {
        if i == v.len() {
            stop = true;
        } else if !str_lt(v[i].as_str(), s.as_str()) {
            assert(vs[i as int] == v@[i as int]@);
            stop = true;
        } else {
            assert(vs[i as int] == v@[i as int]@);
            i = i + 1;
        }
    }
    proof {
        lemma_insert_sorted_spec_at(vs, s@, i as int);
    }
    if i < v.len() && s.eq(&v[i]) {
        assert(vs[i as int] == v@[i as int]@);
        return ;
    }
    assert(!(i < vs.len() && vs[i as int] == s@));
    v.insert(i, s);
    proof {
        assert(views(v@) =~= vs.take(i as int) + seq![s@] + vs.skip(i as int));
    }
}

/// Sorts the strings lexicographically and removes exact duplicates.
pub fn sort_dedup(fresh: &Vec<String>) -> (r: Vec<String>)
    ensures
        views(r@) == sort_dedup_spec(views(fresh@)),
{
    let mut out: Vec<String> = Vec::new();
    let mut k: usize = 0;
    proof {
        assert(views(fresh@).take(0) =~= Seq::<Seq<char>>::empty());
        assert(views(out@) =~= Seq::<Seq<char>>::empty());
    }
    while k < fresh.len()
        invariant
            k <= fresh.len(),
            views(out@) == sort_dedup_spec(views(fresh@).take(k as int)),
        decreases fresh.len() - k,
    {
        let ghost pre = views(fresh@).take(k as int);
        insert_unique_sorted(&mut out, fresh[k].clone());
        proof {
            let cur = views(fresh@).take(k as int + 1);
            assert(cur.drop_last() =~= pre);
            assert(cur.last() == views(fresh@)[k as int]);
            assert(views(fresh@)[k as int] == fresh@[k as int]@);
        }
        k = k + 1;
    }
    proof {
        assert(views(fresh@).take(fresh@.len() as int) =~= views(fresh@));
    }
    out
}

} // verus!
