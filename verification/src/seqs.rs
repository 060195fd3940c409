//! Folds over sequences used by the configuration specification: checking
//! every element in order, removing duplicates, and keyed insertion with
//! replacement (map semantics).
use vstd::prelude::*;

verus! {

/// `f` applied to every element of `s` in order; the first error stops it.
pub open spec fn map_all<A, B>(s: Seq<A>, f: spec_fn(A) -> Result<B, Seq<char>>) -> Result<
    Seq<B>,
    Seq<char>,
>
    decreases s.len(),
{
    if s.len() == 0 {
        Ok(Seq::empty())
    } else {
        match map_all(s.drop_last(), f) {
            Err(e) => Err(e),
            Ok(acc) => match f(s.last()) {
                Err(e) => Err(e),
                Ok(b) => Ok(acc.push(b)),
            },
        }
    }
}

/// Once a prefix of `s` fails, all of `s` fails with the same error.
pub proof fn lemma_map_all_err<A, B>(s: Seq<A>, f: spec_fn(A) -> Result<B, Seq<char>>, k: int)
    requires
        0 <= k <= s.len(),
        map_all(s.take(k), f) is Err,
    ensures
        map_all(s, f) == map_all(s.take(k), f),
    decreases s.len() - k,
{
    if k == s.len() {
        assert(s.take(k) =~= s);
    } else {
        assert(s.take(k + 1).drop_last() =~= s.take(k));
        lemma_map_all_err(s, f, k + 1);
    }
}

/// When `map_all` succeeds, every element passes `f`, giving the element at
/// the same position.
pub proof fn lemma_map_all_ok<A, B>(s: Seq<A>, f: spec_fn(A) -> Result<B, Seq<char>>)
    requires
        map_all(s, f) is Ok,
    ensures
        map_all(s, f)->Ok_0.len() == s.len(),
        forall|i: int|
            0 <= i < s.len() ==> #[trigger] f(s[i]) == Ok::<B, Seq<char>>(
                map_all(s, f)->Ok_0[i],
            ),
    decreases s.len(),
{
    if s.len() > 0 {
        lemma_map_all_ok(s.drop_last(), f);
        let acc = map_all(s.drop_last(), f)->Ok_0;
        assert forall|i: int| 0 <= i < s.len() implies #[trigger] f(s[i]) == Ok::<B, Seq<char>>(
            map_all(s, f)->Ok_0[i],
        ) by {
            if i < s.len() - 1 {
                assert(s.drop_last()[i] == s[i]);
            }
        }
    }
}

/// `s` without repeated elements, each kept at its first occurrence.
pub open spec fn dedup(s: Seq<Seq<char>>) -> Seq<Seq<char>>
    decreases s.len(),
{
    if s.len() == 0 {
        Seq::empty()
    } else {
        let d = dedup(s.drop_last());
        if d.contains(s.last()) {
            d
        } else {
            d.push(s.last())
        }
    }
}

/// `dedup` keeps exactly the elements of `s`, each once.
pub proof fn lemma_dedup(s: Seq<Seq<char>>)
    ensures
        dedup(s).no_duplicates(),
        forall|x: Seq<char>| #[trigger] dedup(s).contains(x) <==> s.contains(x),
    decreases s.len(),
{
    if s.len() > 0 {
        lemma_dedup(s.drop_last());
        let d = dedup(s.drop_last());
        assert forall|x: Seq<char>| #[trigger] s.contains(x) <==> (s.drop_last().contains(x) || x
            == s.last()) by {
            if s.contains(x) && x != s.last() {
                let i = choose|i: int| 0 <= i < s.len() && s[i] == x;
                assert(s.drop_last()[i] == x);
            }
            if s.drop_last().contains(x) {
                let i = choose|i: int| 0 <= i < s.drop_last().len() && s.drop_last()[i] == x;
                assert(s[i] == x);
            }
            if x == s.last() {
                assert(s[s.len() - 1] == x);
            }
        }
        if !d.contains(s.last()) {
            assert forall|x: Seq<char>| #[trigger] d.push(s.last()).contains(x) <==> (d.contains(x)
                || x == s.last()) by {
                if d.push(s.last()).contains(x) && x != s.last() {
                    let i = choose|i: int| 0 <= i < d.len() + 1 && d.push(s.last())[i] == x;
                    assert(d[i] == x);
                }
                if d.contains(x) {
                    let i = choose|i: int| 0 <= i < d.len() && d[i] == x;
                    assert(d.push(s.last())[i] == x);
                }
                if x == s.last() {
                    assert(d.push(s.last())[d.len() as int] == x);
                }
            }
        }
        if !d.contains(s.last()) {
            assert forall|i: int, j: int|
                0 <= i < dedup(s).len() && 0 <= j < dedup(s).len() && i != j implies dedup(
                s,
            )[i] != dedup(s)[j] by {
                if i < d.len() && j < d.len() {
                } else if i == d.len() {
                    assert(d[j] == dedup(s)[j]);
                } else {
                    assert(d[i] == dedup(s)[i]);
                }
            }
        }
    }
}

/// The first position at or after `i` whose key is `k`.
pub open spec fn key_index_from<V>(s: Seq<(Seq<char>, V)>, k: Seq<char>, i: int) -> Option<int>
    decreases s.len() - i,
{
    if i < 0 || i >= s.len() {
        None
    } else if s[i].0 == k {
        Some(i)
    } else {
        key_index_from(s, k, i + 1)
    }
}

/// The first position whose key is `k`.
pub open spec fn key_index<V>(s: Seq<(Seq<char>, V)>, k: Seq<char>) -> Option<int> {
    key_index_from(s, k, 0)
}

/// `key_index_from` names a position holding `k`, or no position from `i` on
/// holds `k`.
pub proof fn lemma_key_index_from<V>(s: Seq<(Seq<char>, V)>, k: Seq<char>, i: int)
    requires
        0 <= i,
    ensures
        match key_index_from(s, k, i) {
            Some(j) => i <= j < s.len() && s[j].0 == k && forall|m: int| i <= m < j ==> s[m].0 != k,
            None => forall|m: int| i <= m < s.len() ==> s[m].0 != k,
        },
    decreases s.len() - i,
{
    if i < s.len() && s[i].0 != k {
        lemma_key_index_from(s, k, i + 1);
    }
}

/// `s` with the entry for `k` set to `v`: an existing entry is replaced in
/// place, otherwise the entry is added at the end.
pub open spec fn upsert<V>(s: Seq<(Seq<char>, V)>, k: Seq<char>, v: V) -> Seq<(Seq<char>, V)> {
    match key_index(s, k) {
        Some(i) => s.update(i, (k, v)),
        None => s.push((k, v)),
    }
}

/// The entries of `s` inserted one after another into an empty table.
pub open spec fn upsert_all<V>(s: Seq<(Seq<char>, V)>) -> Seq<(Seq<char>, V)>
    decreases s.len(),
{
    if s.len() == 0 {
        Seq::empty()
    } else {
        upsert(upsert_all(s.drop_last()), s.last().0, s.last().1)
    }
}

/// No key occurs twice in `s`.
pub open spec fn keys_unique<V>(s: Seq<(Seq<char>, V)>) -> bool {
    forall|i: int, j: int| 0 <= i < s.len() && 0 <= j < s.len() && i != j ==> s[i].0 != s[j].0
}

/// Inserting keeps keys unique, makes `k` map to `v`, and leaves every other
/// key's entry as it was.
pub proof fn lemma_upsert<V>(s: Seq<(Seq<char>, V)>, k: Seq<char>, v: V)
    requires
        keys_unique(s),
    ensures
        keys_unique(upsert(s, k, v)),
        upsert(s, k, v).contains((k, v)),
        forall|e: (Seq<char>, V)| e.0 != k ==> (upsert(s, k, v).contains(e) <==> s.contains(e)),
        forall|e: (Seq<char>, V)| e.0 == k && upsert(s, k, v).contains(e) ==> e == (k, v),
{
    lemma_key_index_from(s, k, 0);
    let u = upsert(s, k, v);
    match key_index(s, k) {
        Some(i) => {
            assert(u[i] == (k, v));
            assert forall|e: (Seq<char>, V)| e.0 != k implies (u.contains(e) <==> s.contains(e)) by {
                if u.contains(e) {
                    let j = choose|j: int| 0 <= j < u.len() && u[j] == e;
                    assert(s[j] == e);
                }
                if s.contains(e) {
                    let j = choose|j: int| 0 <= j < s.len() && s[j] == e;
                    assert(u[j] == e);
                }
            }
            assert forall|e: (Seq<char>, V)| e.0 == k && u.contains(e) implies e == (k, v) by {
                let j = choose|j: int| 0 <= j < u.len() && u[j] == e;
                if j != i {
                    assert(s[j].0 == k);
                }
            }
        },
        None => {
            assert(u[s.len() as int] == (k, v));
            assert forall|e: (Seq<char>, V)| e.0 != k implies (u.contains(e) <==> s.contains(e)) by {
                if u.contains(e) {
                    let j = choose|j: int| 0 <= j < u.len() && u[j] == e;
                    assert(s[j] == e);
                }
                if s.contains(e) {
                    let j = choose|j: int| 0 <= j < s.len() && s[j] == e;
                    assert(u[j] == e);
                }
            }
            assert forall|e: (Seq<char>, V)| e.0 == k && u.contains(e) implies e == (k, v) by {
                let j = choose|j: int| 0 <= j < u.len() && u[j] == e;
                if j < s.len() {
                    assert(s[j].0 == k);
                }
            }
        },
    }
}

/// Inserting every entry of `s` yields a table with unique keys.
pub proof fn lemma_upsert_all_unique<V>(s: Seq<(Seq<char>, V)>)
    ensures
        keys_unique(upsert_all(s)),
    decreases s.len(),
{
    if s.len() > 0 {
        lemma_upsert_all_unique(s.drop_last());
        lemma_upsert(upsert_all(s.drop_last()), s.last().0, s.last().1);
    }
}

/// Every entry of the table built by `upsert_all` comes from `s`.
pub proof fn lemma_upsert_all_contains<V>(s: Seq<(Seq<char>, V)>)
    ensures
        forall|e: (Seq<char>, V)| #[trigger] upsert_all(s).contains(e) ==> s.contains(e),
    decreases s.len(),
{
    if s.len() > 0 {
        let pre = s.drop_last();
        lemma_upsert_all_contains(pre);
        lemma_upsert_all_unique(pre);
        lemma_upsert(upsert_all(pre), s.last().0, s.last().1);
        assert forall|e: (Seq<char>, V)| #[trigger] upsert_all(s).contains(e) implies s.contains(
            e,
        ) by {
            if e.0 != s.last().0 {
                assert(upsert_all(pre).contains(e));
                assert(pre.contains(e));
                let i = choose|i: int| 0 <= i < pre.len() && pre[i] == e;
                assert(s[i] == e);
            } else {
                assert(s[s.len() - 1] == e);
            }
        }
    }
}

/// Table law: the last entry of `s` for each key is the one the table built
/// by `upsert_all` holds (a later entry replaces an earlier one).
pub proof fn lemma_upsert_all_last<V>(s: Seq<(Seq<char>, V)>, i: int)
    requires
        0 <= i < s.len(),
        forall|j: int| i < j < s.len() ==> s[j].0 != s[i].0,
    ensures
        upsert_all(s).contains(s[i]),
    decreases s.len(),
{
    let pre = s.drop_last();
    lemma_upsert_all_unique(pre);
    lemma_upsert(upsert_all(pre), s.last().0, s.last().1);
    if i < s.len() - 1 {
        assert(s[s.len() - 1].0 != s[i].0);
        assert forall|j: int| i < j < pre.len() implies pre[j].0 != pre[i].0 by {
            assert(pre[j] == s[j]);
        }
        lemma_upsert_all_last(pre, i);
        assert(pre[i] == s[i]);
    }
}

/// Each entry of a `Vec` of keyed pairs, taken by its views.
pub open spec fn pairs_view<V: View>(s: Seq<(String, V)>) -> Seq<(Seq<char>, V::V)> {
    s.map_values(|p: (String, V)| (p.0@, p.1@))
}

/// Sets the entry for `k` in `table` to `val` (`upsert`).
pub fn upsert_vec<V: View>(table: &mut Vec<(String, V)>, k: String, val: V)
    ensures
        pairs_view(final(table)@) == upsert(pairs_view(old(table)@), k@, val@),
{
    let ghost s = pairs_view(table@);
    let mut i: usize = 0;
    while i < table.len()
        invariant
            i <= table@.len(),
            s == pairs_view(table@),
            table@ == old(table)@,
            key_index(s, k@) == key_index_from(s, k@, i as int),
        decreases table@.len() - i,
    {
        if table[i].0 == k {
            let ghost j = i as int;
            assert(s[j].0 == k@);
            assert(key_index_from(s, k@, j) == Some(j));
            assert(upsert(s, k@, val@) == s.update(j, (k@, val@)));
            table.set(i, (k, val));
            assert(pairs_view(table@) =~= s.update(j, (k@, val@)));
            return;
        }
        i = i + 1;
    }
    table.push((k, val));
    assert(pairs_view(table@) =~= s.push((k@, val@)));
}

} // verus!
