use vstd::prelude::*;

use crate::order::{clamp, entered, moved_within};

verus! {

/// Mathematical view of a [`crate::store::OrderedItem`].
pub struct ItemView {
    pub id: Seq<char>,
    pub scope: Seq<char>,
    pub position: int,
    pub created_at: int,
}

/// Record `i` of `s` belongs to `scope`.
pub open spec fn is_member(s: Seq<ItemView>, scope: Seq<char>, i: int) -> bool {
    0 <= i < s.len() && s[i].scope == scope
}

/// Record `i` is read before record `j`: by position, then creation time, then
/// the order in which the store holds them.
pub open spec fn precedes(s: Seq<ItemView>, i: int, j: int) -> bool {
    ||| s[i].position < s[j].position
    ||| s[i].position == s[j].position && s[i].created_at < s[j].created_at
    ||| s[i].position == s[j].position && s[i].created_at == s[j].created_at && i < j
}

/// `l` lists, each once and in read order, the members of `scope` among the
/// first `n` records.
pub open spec fn is_listing_upto(s: Seq<ItemView>, scope: Seq<char>, n: int, l: Seq<int>) -> bool {
    &&& l.no_duplicates()
    &&& forall|k: int| 0 <= k < l.len() ==> is_member(s, scope, #[trigger] l[k]) && l[k] < n
    &&& forall|i: int| 0 <= i < n && is_member(s, scope, i) ==> #[trigger] l.contains(i)
    &&& forall|a: int, b: int| 0 <= a < b < l.len() ==> #[trigger] precedes(s, l[a], l[b])
}

/// `l` lists every member of `scope`, each once, in read order.
pub open spec fn is_listing(s: Seq<ItemView>, scope: Seq<char>, l: Seq<int>) -> bool {
    is_listing_upto(s, scope, s.len() as int, l)
}

/// The members of `scope` in read order, as record indices.
pub open spec fn listing(s: Seq<ItemView>, scope: Seq<char>) -> Seq<int> {
    choose|l: Seq<int>| is_listing(s, scope, l)
}

/// The ids of the members of `scope` in read order.
pub open spec fn listed_ids(s: Seq<ItemView>, scope: Seq<char>) -> Seq<Seq<char>> {
    listing(s, scope).map_values(|i: int| s[i].id)
}

/// Read in order, the members of `scope` hold the positions 0, 1, ..., n - 1:
/// their positions are exactly `0..n`, without gaps or duplicates.
pub open spec fn dense(s: Seq<ItemView>, scope: Seq<char>) -> bool {
    forall|k: int|
        0 <= k < listing(s, scope).len() ==> #[trigger] s[listing(s, scope)[k]].position == k
}

/// Every scope is dense.
pub open spec fn all_dense(s: Seq<ItemView>) -> bool {
    forall|scope: Seq<char>| #[trigger] dense(s, scope)
}

/// No two records share an id.
pub open spec fn unique_ids(s: Seq<ItemView>) -> bool {
    forall|i: int, j: int| 0 <= i < s.len() && 0 <= j < s.len() && i != j ==> s[i].id != s[j].id
}

/// Record indices as integers.
pub open spec fn ints(v: Seq<usize>) -> Seq<int> {
    v.map_values(|i: usize| i as int)
}

/// `v` with its position replaced by `p`.
pub open spec fn with_position(v: ItemView, p: int) -> ItemView {
    ItemView { id: v.id, scope: v.scope, position: p, created_at: v.created_at }
}

/// The records after each record listed in `l` is given its index in `l` as
/// position.
pub open spec fn apply_order(s: Seq<ItemView>, l: Seq<int>) -> Seq<ItemView> {
    Seq::new(
        s.len(),
        |i: int|
            if l.contains(i) {
                with_position(s[i], l.index_of(i))
            } else {
                s[i]
            },
    )
}

/// The records after the members of `scope` are numbered 0, 1, ... in read order.
pub open spec fn renumbered(s: Seq<ItemView>, scope: Seq<char>) -> Seq<ItemView> {
    apply_order(s, listing(s, scope))
}

/// `l` holds each member of `scope`, once, and nothing else.
pub open spec fn enumerates(s: Seq<ItemView>, scope: Seq<char>, l: Seq<int>) -> bool {
    &&& l.no_duplicates()
    &&& forall|k: int| 0 <= k < l.len() ==> is_member(s, scope, #[trigger] l[k])
    &&& forall|i: int| is_member(s, scope, i) ==> #[trigger] l.contains(i)
}

pub(crate) proof fn lemma_index_of_distinct(l: Seq<int>, k: int)
    requires
        l.no_duplicates(),
        0 <= k < l.len(),
    ensures
        l.index_of(l[k]) == k,
{
    assert(l.contains(l[k]));
}

/// Two record sequences that agree on the members of `scope` list and number
/// that scope alike.
pub proof fn lemma_frame(s1: Seq<ItemView>, s2: Seq<ItemView>, scope: Seq<char>)
    requires
        forall|i: int| #[trigger] is_member(s1, scope, i) <==> is_member(s2, scope, i),
        forall|i: int| is_member(s1, scope, i) ==> s1[i] == s2[i],
    ensures
        listing(s1, scope) == listing(s2, scope),
        dense(s1, scope) <==> dense(s2, scope),
        listed_ids(s1, scope) == listed_ids(s2, scope),
{
    lemma_listing(s1, scope);
    lemma_listing(s2, scope);
    let l = listing(s1, scope);
    assert forall|a: int, b: int| 0 <= a < b < l.len() implies #[trigger] precedes(
        s2,
        l[a],
        l[b],
    ) by {
        assert(precedes(s1, l[a], l[b]));
        assert(is_member(s1, scope, l[a]));
        assert(is_member(s1, scope, l[b]));
    }
    assert forall|k: int| 0 <= k < l.len() implies is_member(s2, scope, #[trigger] l[k]) && l[k]
        < s2.len() by {
        assert(is_member(s1, scope, l[k]));
    }
    assert forall|i: int| 0 <= i < s2.len() && is_member(s2, scope, i) implies #[trigger] l.contains(
        i,
    ) by {
        assert(is_member(s1, scope, i));
    }
    assert(is_listing(s2, scope, l));
    assert forall|k: int| 0 <= k < l.len() implies #[trigger] s1[l[k]] == s2[l[k]] by {
        assert(is_member(s1, scope, l[k]));
    }
    assert(listed_ids(s1, scope) =~= listed_ids(s2, scope));
}

/// Numbering the members of `scope` by an enumeration `l` makes `l` the read
/// order and the scope dense; ids, scopes and creation times stay.
pub proof fn lemma_apply_order(s: Seq<ItemView>, scope: Seq<char>, l: Seq<int>)
    requires
        enumerates(s, scope, l),
    ensures
        apply_order(s, l).len() == s.len(),
        listing(apply_order(s, l), scope) == l,
        dense(apply_order(s, l), scope),
        forall|i: int|
            0 <= i < s.len() ==> (#[trigger] apply_order(s, l)[i]).id == s[i].id && apply_order(
                s,
                l,
            )[i].scope == s[i].scope && apply_order(s, l)[i].created_at == s[i].created_at,
        forall|i: int| 0 <= i < s.len() && !l.contains(i) ==> #[trigger] apply_order(s, l)[i] == s[i],
{
    let t = apply_order(s, l);
    assert forall|k: int| 0 <= k < l.len() implies #[trigger] t[l[k]].position == k by {
        assert(is_member(s, scope, l[k]));
        lemma_index_of_distinct(l, k);
    }
    assert forall|i: int| #[trigger] is_member(t, scope, i) <==> is_member(s, scope, i) by {}
    assert forall|a: int, b: int| 0 <= a < b < l.len() implies #[trigger] precedes(t, l[a], l[b]) by {
        assert(t[l[a]].position == a);
        assert(t[l[b]].position == b);
    }
    assert forall|k: int| 0 <= k < l.len() implies is_member(t, scope, #[trigger] l[k]) && l[k]
        < t.len() by {
        assert(is_member(s, scope, l[k]));
    }
    assert forall|i: int| 0 <= i < t.len() && is_member(t, scope, i) implies #[trigger] l.contains(
        i,
    ) by {
        assert(is_member(s, scope, i));
    }
    assert(is_listing(t, scope, l));
    lemma_listing(t, scope);
}

/// Numbering by an enumeration of one scope leaves every other scope as it was.
pub proof fn lemma_apply_order_other(s: Seq<ItemView>, scope: Seq<char>, l: Seq<int>, other: Seq<char>)
    requires
        enumerates(s, scope, l),
        other != scope,
    ensures
        listing(apply_order(s, l), other) == listing(s, other),
        dense(apply_order(s, l), other) <==> dense(s, other),
        listed_ids(apply_order(s, l), other) == listed_ids(s, other),
{
    let t = apply_order(s, l);
    assert forall|i: int| #[trigger] is_member(s, other, i) <==> is_member(t, other, i) by {}
    assert forall|i: int| is_member(s, other, i) implies s[i] == t[i] by {
        if l.contains(i) {
            let k = choose|k: int| 0 <= k < l.len() && l[k] == i;
            assert(is_member(s, scope, l[k]));
        }
    }
    lemma_frame(s, t, other);
}

/// A dense scope is left as it is by renumbering.
pub proof fn lemma_renumber_dense(s: Seq<ItemView>, scope: Seq<char>)
    requires
        dense(s, scope),
    ensures
        renumbered(s, scope) == s,
{
    lemma_listing(s, scope);
    let l = listing(s, scope);
    assert forall|i: int| 0 <= i < s.len() implies #[trigger] renumbered(s, scope)[i] == s[i] by {
        if l.contains(i) {
            let k = choose|k: int| 0 <= k < l.len() && l[k] == i;
            lemma_index_of_distinct(l, k);
            assert(s[l[k]].position == k);
        }
    }
    assert(renumbered(s, scope) =~= s);
}

/// Renumbering a scope twice leaves the same positions as renumbering it once.
pub proof fn lemma_renumber_idempotent(s: Seq<ItemView>, scope: Seq<char>)
    ensures
        renumbered(renumbered(s, scope), scope) == renumbered(s, scope),
        dense(renumbered(s, scope), scope),
{
    lemma_listing(s, scope);
    lemma_apply_order(s, scope, listing(s, scope));
    lemma_renumber_dense(renumbered(s, scope), scope);
}

/// The listing of a scope enumerates it.
proof fn lemma_listing_enumerates(s: Seq<ItemView>, scope: Seq<char>)
    ensures
        enumerates(s, scope, listing(s, scope)),
{
    lemma_listing(s, scope);
}

/// Some record has id `id`.
pub open spec fn has_id(s: Seq<ItemView>, id: Seq<char>) -> bool {
    exists|i: int| 0 <= i < s.len() && s[i].id == id
}

/// Index of the first record with id `id`.
pub open spec fn find_id(s: Seq<ItemView>, id: Seq<char>) -> int {
    choose|i: int| 0 <= i < s.len() && s[i].id == id && forall|j: int| 0 <= j < i ==> s[j].id != id
}

/// The records after a new item `id` enters `scope` at index `p` of its read order.
pub open spec fn created(s: Seq<ItemView>, id: Seq<char>, scope: Seq<char>, p: int, created_at: int) -> Seq<
    ItemView,
> {
    apply_order(
        s.push(ItemView { id, scope, position: p, created_at }),
        listing(s, scope).insert(p, s.len() as int),
    )
}

/// Creating a member keeps the other scopes and their density.
pub(crate) proof fn lemma_created(s: Seq<ItemView>, id: Seq<char>, scope: Seq<char>, p: int, created_at: int)
    requires
        0 <= p <= listing(s, scope).len(),
    ensures
        created(s, id, scope, p, created_at).len() == s.len() + 1,
        listed_ids(created(s, id, scope, p, created_at), scope) == listed_ids(s, scope).insert(p, id),
        dense(created(s, id, scope, p, created_at), scope),
        forall|other: Seq<char>|
            other != scope ==> (#[trigger] dense(created(s, id, scope, p, created_at), other)
                <==> dense(s, other)),
        forall|i: int|
            0 <= i < s.len() ==> (#[trigger] created(s, id, scope, p, created_at)[i]).id == s[i].id,
        created(s, id, scope, p, created_at)[s.len() as int].id == id,
        enumerates(
            s.push(ItemView { id, scope, position: p, created_at }),
            scope,
            listing(s, scope).insert(p, s.len() as int),
        ),
{
    let v = ItemView { id, scope, position: p, created_at };
    let s1 = s.push(v);
    let l = listing(s, scope);
    let l2 = l.insert(p, s.len() as int);
    let f = created(s, id, scope, p, created_at);
    lemma_listing(s, scope);
    l.insert_ensures(p, s.len() as int);
    assert forall|a: int, b: int| 0 <= a < l2.len() && 0 <= b < l2.len() && a != b implies l2[a]
        != l2[b] by {
        if a != p && b != p {
            let a0 = if a < p {
                a
            } else {
                a - 1
            };
            let b0 = if b < p {
                b
            } else {
                b - 1
            };
            assert(l2[a] == l[a0]);
            assert(l2[b] == l[b0]);
        } else if a == p {
            let b0 = if b < p {
                b
            } else {
                b - 1
            };
            assert(l2[b] == l[b0]);
            assert(l[b0] < s.len());
        } else {
            let a0 = if a < p {
                a
            } else {
                a - 1
            };
            assert(l2[a] == l[a0]);
            assert(l[a0] < s.len());
        }
    }
    assert forall|k: int| 0 <= k < l2.len() implies is_member(s1, scope, #[trigger] l2[k]) by {
        if k < p {
            assert(is_member(s, scope, l[k]));
        } else if k > p {
            assert(l2[k] == l[k - 1]);
            assert(is_member(s, scope, l[k - 1]));
        }
    }
    assert forall|i: int| is_member(s1, scope, i) implies #[trigger] l2.contains(i) by {
        if i == s.len() {
            assert(l2[p] == i);
        } else {
            assert(is_member(s, scope, i));
            assert(l.contains(i));
            let k = choose|k: int| 0 <= k < l.len() && l[k] == i;
            if k < p {
                assert(l2[k] == i);
            } else {
                assert(l2[k + 1] == i);
            }
        }
    }
    assert(enumerates(s1, scope, l2));
    lemma_apply_order(s1, scope, l2);
    assert(listed_ids(f, scope) =~= l2.map_values(|i: int| s1[i].id));
    crate::order::lemma_map_insert(l, p, s.len() as int, |i: int| s1[i].id);
    assert(l.map_values(|i: int| s1[i].id) =~= listed_ids(s, scope)) by {
        assert forall|k: int| 0 <= k < l.len() implies #[trigger] s1[l[k]].id == s[l[k]].id by {
            assert(is_member(s, scope, l[k]));
        }
    }
    assert forall|other: Seq<char>| other != scope implies (#[trigger] dense(f, other) <==> dense(
        s,
        other,
    )) by {
        lemma_apply_order_other(s1, scope, l2, other);
        assert forall|i: int| #[trigger] is_member(s, other, i) <==> is_member(s1, other, i) by {}
        lemma_frame(s, s1, other);
    }
}

/// Index `i` once record `d` is taken out.
pub open spec fn shift_down(d: int, i: int) -> int {
    if i > d {
        i - 1
    } else {
        i
    }
}

/// The records after item `id` is taken out and `scope` renumbered.
pub open spec fn deleted(s: Seq<ItemView>, id: Seq<char>, scope: Seq<char>) -> Seq<ItemView> {
    renumbered(s.remove(find_id(s, id)), scope)
}

/// Taking out record `d` keeps the read order of every scope, less `d`, and
/// keeps the density of the scopes that did not hold it.
proof fn lemma_remove_listing(s: Seq<ItemView>, d: int, scope: Seq<char>)
    requires
        0 <= d < s.len(),
    ensures
        !is_member(s, scope, d) ==> listed_ids(s.remove(d), scope) == listed_ids(s, scope),
        !is_member(s, scope, d) ==> (dense(s, scope) ==> dense(s.remove(d), scope)),
        is_member(s, scope, d) ==> listing(s, scope).contains(d) && listed_ids(s.remove(d), scope)
            == listed_ids(s, scope).remove(listing(s, scope).index_of(d)),
{
    let r = s.remove(d);
    s.remove_ensures(d);
    lemma_listing(s, scope);
    let l = listing(s, scope);
    let member = is_member(s, scope, d);
    if member {
        assert(l.contains(d));
    }
    let k = l.index_of(d);
    let lp = if member {
        l.remove(k)
    } else {
        l
    };
    let src = |j: int|
        if member && j >= k {
            j + 1
        } else {
            j
        };
    assert forall|j: int| 0 <= j < lp.len() implies #[trigger] lp[j] == l[src(j)] && 0 <= src(j)
        < l.len() && l[src(j)] != d by {
        if member {
            assert(l[src(j)] != l[k]);
        } else {
            assert(is_member(s, scope, l[j]));
        }
    }
    let m = lp.map_values(|i: int| shift_down(d, i));
    assert forall|j: int| 0 <= j < m.len() implies #[trigger] r[m[j]] == s[lp[j]] && 0 <= m[j] < r.len() by {
        assert(is_member(s, scope, l[src(j)]));
    }
    assert forall|a: int, b: int| 0 <= a < b < m.len() implies #[trigger] precedes(r, m[a], m[b]) by {
        assert(precedes(s, l[src(a)], l[src(b)]));
        assert(r[m[a]] == s[lp[a]]);
        assert(r[m[b]] == s[lp[b]]);
    }
    assert forall|a: int, b: int| 0 <= a < m.len() && 0 <= b < m.len() && a != b implies m[a] != m[b] by {
        assert(l[src(a)] != l[src(b)]);
    }
    assert forall|j: int| 0 <= j < m.len() implies is_member(r, scope, #[trigger] m[j]) && m[j] < r.len() by {
        assert(r[m[j]] == s[lp[j]]);
        assert(is_member(s, scope, l[src(j)]));
    }
    assert forall|i: int| 0 <= i < r.len() && is_member(r, scope, i) implies #[trigger] m.contains(i) by {
        let i0 = if i < d {
            i
        } else {
            i + 1
        };
        assert(r[i] == s[i0]);
        assert(is_member(s, scope, i0));
        assert(l.contains(i0));
        let c = choose|c: int| 0 <= c < l.len() && l[c] == i0;
        let j = if member && c > k {
            c - 1
        } else {
            c
        };
        if member {
            assert(c != k);
        }
        assert(lp[j] == i0);
        assert(m[j] == i);
    }
    assert(is_listing(r, scope, m));
    lemma_listing(r, scope);
    assert(listed_ids(r, scope) =~= lp.map_values(|i: int| s[i].id)) by {
        assert forall|j: int| 0 <= j < m.len() implies #[trigger] r[m[j]].id == s[lp[j]].id by {}
    }
    if member {
        crate::order::lemma_map_remove(l, k, |i: int| s[i].id);
    } else {
        if dense(s, scope) {
            assert forall|j: int| 0 <= j < m.len() implies #[trigger] r[m[j]].position == j by {
                assert(s[l[j]].position == j);
            }
        }
    }
}

/// What deleting record `d` of `scope` leaves.
pub(crate) proof fn lemma_deleted(s: Seq<ItemView>, d: int, scope: Seq<char>)
    requires
        is_member(s, scope, d),
    ensures
        dense(renumbered(s.remove(d), scope), scope),
        listed_ids(renumbered(s.remove(d), scope), scope) == listed_ids(s, scope).remove(
            listing(s, scope).index_of(d),
        ),
        all_dense(s) ==> all_dense(renumbered(s.remove(d), scope)),
        unique_ids(s) ==> unique_ids(renumbered(s.remove(d), scope)),
{
    let r = s.remove(d);
    s.remove_ensures(d);
    let f = renumbered(r, scope);
    lemma_remove_listing(s, d, scope);
    lemma_listing_enumerates(r, scope);
    let l = listing(r, scope);
    lemma_apply_order(r, scope, l);
    assert(listed_ids(f, scope) =~= listed_ids(r, scope));
    if all_dense(s) {
        assert forall|other: Seq<char>| #[trigger] dense(f, other) by {
            if other != scope {
                assert(dense(s, other));
                lemma_remove_listing(s, d, other);
                lemma_apply_order_other(r, scope, l, other);
            }
        }
    }
    if unique_ids(s) {
        assert forall|i: int, j: int|
            0 <= i < f.len() && 0 <= j < f.len() && i != j implies f[i].id != f[j].id by {
            let i0 = if i < d {
                i
            } else {
                i + 1
            };
            let j0 = if j < d {
                j
            } else {
                j + 1
            };
            assert(r[i] == s[i0]);
            assert(r[j] == s[j0]);
        }
    }
}

/// `v` placed in scope `scope`.
pub open spec fn with_scope(v: ItemView, scope: Seq<char>) -> ItemView {
    ItemView { id: v.id, scope, position: v.position, created_at: v.created_at }
}

/// Index of item `id` in the read order of `scope`.
pub open spec fn rank(s: Seq<ItemView>, scope: Seq<char>, id: Seq<char>) -> int {
    listing(s, scope).index_of(find_id(s, id))
}

/// The records after item `id` moves from `source` to index `target` of `dest`
/// (of `source` when the two are one scope), with both scopes renumbered.
pub open spec fn moved(
    s: Seq<ItemView>,
    id: Seq<char>,
    source: Seq<char>,
    dest: Seq<char>,
    target: int,
) -> Seq<ItemView> {
    let x = find_id(s, id);
    let la = listing(s, source);
    let f = la.index_of(x);
    if source == dest {
        apply_order(s, moved_within(la, f, target))
    } else {
        apply_order(
            apply_order(s.update(x, with_scope(s[x], dest)), la.remove(f)),
            entered(listing(s, dest), x, target),
        )
    }
}

/// What a move within one scope leaves.
pub(crate) proof fn lemma_moved_within_scope(s: Seq<ItemView>, x: int, scope: Seq<char>, target: int)
    requires
        is_member(s, scope, x),
    ensures
        listing(s, scope).contains(x),
        enumerates(s, scope, moved_within(listing(s, scope), listing(s, scope).index_of(x), target)),
        ({
            let f = apply_order(
                s,
                moved_within(listing(s, scope), listing(s, scope).index_of(x), target),
            );
            &&& listed_ids(f, scope) == moved_within(
                listed_ids(s, scope),
                listing(s, scope).index_of(x),
                target,
            )
            &&& dense(f, scope)
            &&& all_dense(s) ==> all_dense(f)
            &&& unique_ids(s) ==> unique_ids(f)
        }),
{
    lemma_listing(s, scope);
    let la = listing(s, scope);
    assert(la.contains(x));
    let k = la.index_of(x);
    let lm = moved_within(la, k, target);
    crate::order::lemma_moved_same_elements(la, k, target);
    assert forall|j: int| 0 <= j < lm.len() implies is_member(s, scope, #[trigger] lm[j]) by {
        assert(la.contains(lm[j]));
        let c = choose|c: int| 0 <= c < la.len() && la[c] == lm[j];
        assert(is_member(s, scope, la[c]));
    }
    assert(enumerates(s, scope, lm));
    lemma_apply_order(s, scope, lm);
    let f = apply_order(s, lm);
    assert(listed_ids(f, scope) =~= lm.map_values(|i: int| s[i].id)) by {
        assert forall|j: int| 0 <= j < lm.len() implies #[trigger] f[lm[j]].id == s[lm[j]].id by {
            assert(is_member(s, scope, lm[j]));
        }
    }
    crate::order::lemma_map_moved(la, k, target, |i: int| s[i].id);
    if all_dense(s) {
        assert forall|other: Seq<char>| #[trigger] dense(f, other) by {
            if other != scope {
                lemma_apply_order_other(s, scope, lm, other);
            }
        }
    }
}

/// What a move from `source` into another scope `dest` leaves.
pub(crate) proof fn lemma_moved_across(s: Seq<ItemView>, x: int, source: Seq<char>, dest: Seq<char>, target: int)
    requires
        is_member(s, source, x),
        source != dest,
    ensures
        listing(s, source).contains(x),
        ({
            let la = listing(s, source);
            let k = la.index_of(x);
            let s1 = s.update(x, with_scope(s[x], dest));
            let s2 = apply_order(s1, la.remove(k));
            let f = apply_order(s2, entered(listing(s, dest), x, target));
            &&& enumerates(s1, source, la.remove(k))
            &&& enumerates(s2, dest, entered(listing(s, dest), x, target))
            &&& listed_ids(f, source) == listed_ids(s, source).remove(k)
            &&& listed_ids(f, dest) == entered(listed_ids(s, dest), s[x].id, target)
            &&& dense(f, source)
            &&& dense(f, dest)
            &&& all_dense(s) ==> all_dense(f)
            &&& unique_ids(s) ==> unique_ids(f)
        }),
{
    lemma_listing(s, source);
    lemma_listing(s, dest);
    let la = listing(s, source);
    let lb = listing(s, dest);
    assert(la.contains(x));
    let k = la.index_of(x);
    let s1 = s.update(x, with_scope(s[x], dest));
    let la2 = la.remove(k);
    la.remove_ensures(k);
    // the reduced source order enumerates the source in `s1`
    assert forall|j: int| 0 <= j < la2.len() implies is_member(s1, source, #[trigger] la2[j]) by {
        let c = if j < k {
            j
        } else {
            j + 1
        };
        assert(la2[j] == la[c]);
        assert(la[c] != la[k]);
        assert(is_member(s, source, la[c]));
    }
    assert forall|i: int| is_member(s1, source, i) implies #[trigger] la2.contains(i) by {
        assert(is_member(s, source, i));
        assert(la.contains(i));
        let c = choose|c: int| 0 <= c < la.len() && la[c] == i;
        assert(c != k);
        if c < k {
            assert(la2[c] == i);
        } else {
            assert(la2[c - 1] == i);
        }
    }
    assert forall|a: int, b: int| 0 <= a < la2.len() && 0 <= b < la2.len() && a != b implies la2[a]
        != la2[b] by {
        let ca = if a < k {
            a
        } else {
            a + 1
        };
        let cb = if b < k {
            b
        } else {
            b + 1
        };
        assert(la2[a] == la[ca]);
        assert(la2[b] == la[cb]);
    }
    assert(enumerates(s1, source, la2));
    lemma_apply_order(s1, source, la2);
    let s2 = apply_order(s1, la2);
    // the destination order with the item put in enumerates the destination in `s2`
    let c = clamp(target, lb.len() as int);
    let lb2 = lb.insert(c, x);
    lb.insert_ensures(c, x);
    assert(!lb.contains(x)) by {
        if lb.contains(x) {
            let m = choose|m: int| 0 <= m < lb.len() && lb[m] == x;
            assert(is_member(s, dest, lb[m]));
        }
    }
    assert forall|j: int| 0 <= j < lb2.len() implies is_member(s2, dest, #[trigger] lb2[j]) by {
        if j < c {
            assert(is_member(s, dest, lb[j]));
        } else if j > c {
            assert(lb2[j] == lb[j - 1]);
            assert(is_member(s, dest, lb[j - 1]));
        }
    }
    assert forall|i: int| is_member(s2, dest, i) implies #[trigger] lb2.contains(i) by {
        if i == x {
            assert(lb2[c] == i);
        } else {
            assert(is_member(s, dest, i));
            assert(lb.contains(i));
            let m = choose|m: int| 0 <= m < lb.len() && lb[m] == i;
            if m < c {
                assert(lb2[m] == i);
            } else {
                assert(lb2[m + 1] == i);
            }
        }
    }
    assert forall|a: int, b: int| 0 <= a < lb2.len() && 0 <= b < lb2.len() && a != b implies lb2[a]
        != lb2[b] by {
        if a != c && b != c {
            let ca = if a < c {
                a
            } else {
                a - 1
            };
            let cb = if b < c {
                b
            } else {
                b - 1
            };
            assert(lb2[a] == lb[ca]);
            assert(lb2[b] == lb[cb]);
        } else if a == c {
            let cb = if b < c {
                b
            } else {
                b - 1
            };
            assert(lb2[b] == lb[cb]);
        } else {
            let ca = if a < c {
                a
            } else {
                a - 1
            };
            assert(lb2[a] == lb[ca]);
        }
    }
    assert(enumerates(s2, dest, lb2));
    lemma_apply_order(s2, dest, lb2);
    lemma_apply_order_other(s2, dest, lb2, source);
    let f = apply_order(s2, lb2);
    assert(forall|i: int| 0 <= i < s.len() ==> #[trigger] f[i].id == s[i].id);
    assert(listed_ids(f, source) =~= la2.map_values(|i: int| s[i].id)) by {
        assert forall|j: int| 0 <= j < la2.len() implies #[trigger] f[la2[j]].id == s[la2[j]].id by {
            assert(is_member(s1, source, la2[j]));
        }
    }
    crate::order::lemma_map_remove(la, k, |i: int| s[i].id);
    assert(listed_ids(f, dest) =~= lb2.map_values(|i: int| s[i].id)) by {
        assert forall|j: int| 0 <= j < lb2.len() implies #[trigger] f[lb2[j]].id == s[lb2[j]].id by {
            assert(is_member(s2, dest, lb2[j]));
        }
    }
    crate::order::lemma_map_insert(lb, c, x, |i: int| s[i].id);
    if all_dense(s) {
        assert forall|other: Seq<char>| #[trigger] dense(f, other) by {
            if other != source && other != dest {
                assert(dense(s, other));
                assert forall|i: int| #[trigger] is_member(s, other, i) <==> is_member(s1, other, i) by {}
                lemma_frame(s, s1, other);
                lemma_apply_order_other(s1, source, la2, other);
                lemma_apply_order_other(s2, dest, lb2, other);
            }
        }
    }
    if unique_ids(s) {
        assert(unique_ids(f));
    }
}

proof fn lemma_first_below(s: Seq<ItemView>, id: Seq<char>, w: int) -> (m: int)
    requires
        0 <= w < s.len(),
        s[w].id == id,
    ensures
        0 <= m <= w,
        s[m].id == id,
        forall|j: int| 0 <= j < m ==> s[j].id != id,
    decreases w,
{
    if exists|j: int| 0 <= j < w && s[j].id == id {
        let j = choose|j: int| 0 <= j < w && s[j].id == id;
        lemma_first_below(s, id, j)
    } else {
        w
    }
}

/// The first record with a present id holds that id.
pub proof fn lemma_find_id(s: Seq<ItemView>, id: Seq<char>)
    requires
        has_id(s, id),
    ensures
        0 <= find_id(s, id) < s.len(),
        s[find_id(s, id)].id == id,
        forall|j: int| 0 <= j < find_id(s, id) ==> s[j].id != id,
{
    let w = choose|i: int| 0 <= i < s.len() && s[i].id == id;
    let m = lemma_first_below(s, id, w);
    assert(s[m].id == id);
}

/// After a move of `id` from `source` into another scope `dest`, `id` stands in
/// the read order of `dest` at the requested index, clamped, and no longer in
/// that of `source`; both scopes are dense.
pub proof fn lemma_cross_move(
    s: Seq<ItemView>,
    id: Seq<char>,
    source: Seq<char>,
    dest: Seq<char>,
    target: int,
)
    requires
        unique_ids(s),
        has_id(s, id),
        s[find_id(s, id)].scope == source,
        source != dest,
    ensures
        listed_ids(moved(s, id, source, dest, target), dest)[clamp(
            target,
            listed_ids(s, dest).len() as int,
        )] == id,
        !listed_ids(moved(s, id, source, dest, target), source).contains(id),
        dense(moved(s, id, source, dest, target), source),
        dense(moved(s, id, source, dest, target), dest),
{
    lemma_find_id(s, id);
    let x = find_id(s, id);
    lemma_moved_across(s, x, source, dest, target);
    lemma_listing(s, source);
    let la = listing(s, source);
    let k = la.index_of(x);
    let f = moved(s, id, source, dest, target);
    let ls = listed_ids(s, source);
    ls.remove_ensures(k);
    assert(listed_ids(s, dest).insert(clamp(target, listed_ids(s, dest).len() as int), id)[clamp(
        target,
        listed_ids(s, dest).len() as int,
    )] == id);
    if listed_ids(f, source).contains(id) {
        let j = choose|j: int| 0 <= j < ls.len() - 1 && ls.remove(k)[j] == id;
        let c = if j < k {
            j
        } else {
            j + 1
        };
        assert(ls[c] == s[la[c]].id);
        assert(la[c] != la[k]);
        assert(is_member(s, source, la[c]));
    }
}

/// A requested index below zero moves an item as index zero does, and one past
/// the end as the last valid index does.
pub proof fn lemma_move_clamping(
    s: Seq<ItemView>,
    id: Seq<char>,
    source: Seq<char>,
    dest: Seq<char>,
    target: int,
)
    requires
        has_id(s, id),
        s[find_id(s, id)].scope == source,
    ensures
        target < 0 ==> moved(s, id, source, dest, target) == moved(s, id, source, dest, 0),
        source == dest && target >= listing(s, source).len() - 1 ==> moved(
            s,
            id,
            source,
            dest,
            target,
        ) == moved(s, id, source, dest, listing(s, source).len() - 1),
        source != dest && target >= listing(s, dest).len() ==> moved(s, id, source, dest, target)
            == moved(s, id, source, dest, listing(s, dest).len() as int),
{
    lemma_find_id(s, id);
    lemma_listing(s, source);
    let x = find_id(s, id);
    assert(is_member(s, source, x));
    assert(listing(s, source).contains(x));
}

/// Moving an item to the index it holds keeps the read order of its scope, and
/// leaves a dense scope exactly as it was.
pub proof fn lemma_move_in_place(s: Seq<ItemView>, id: Seq<char>, scope: Seq<char>)
    requires
        has_id(s, id),
        s[find_id(s, id)].scope == scope,
    ensures
        listed_ids(moved(s, id, scope, scope, rank(s, scope, id)), scope) == listed_ids(s, scope),
        dense(s, scope) ==> moved(s, id, scope, scope, rank(s, scope, id)) == s,
{
    lemma_find_id(s, id);
    lemma_listing(s, scope);
    let x = find_id(s, id);
    let la = listing(s, scope);
    assert(is_member(s, scope, x));
    assert(la.contains(x));
    let k = la.index_of(x);
    crate::order::lemma_move_in_place(la, k);
    lemma_moved_within_scope(s, x, scope, k);
    if dense(s, scope) {
        lemma_renumber_dense(s, scope);
    }
}

/// Creating, deleting and moving items keeps every scope dense: from a store
/// whose scopes are all dense, each of these operations leads to one whose
/// scopes are all dense again.
pub proof fn lemma_density_kept(
    s: Seq<ItemView>,
    id: Seq<char>,
    scope: Seq<char>,
    p: int,
    created_at: int,
    dest: Seq<char>,
    target: int,
)
    requires
        all_dense(s),
    ensures
        0 <= p <= listing(s, scope).len() ==> all_dense(created(s, id, scope, p, created_at)),
        has_id(s, id) && s[find_id(s, id)].scope == scope ==> all_dense(deleted(s, id, scope)),
        has_id(s, id) && s[find_id(s, id)].scope == scope ==> all_dense(
            moved(s, id, scope, dest, target),
        ),
{
    if 0 <= p <= listing(s, scope).len() {
        lemma_created(s, id, scope, p, created_at);
        let f = created(s, id, scope, p, created_at);
        assert forall|other: Seq<char>| #[trigger] dense(f, other) by {
            if other != scope {
                assert(dense(s, other));
            }
        }
    }
    if has_id(s, id) && s[find_id(s, id)].scope == scope {
        lemma_find_id(s, id);
        let x = find_id(s, id);
        lemma_deleted(s, x, scope);
        if scope == dest {
            lemma_moved_within_scope(s, x, scope, target);
        } else {
            lemma_moved_across(s, x, scope, dest, target);
        }
    }
}

/// Finds where record `n` goes in the sorted `l`, searching from `p`.
proof fn lemma_insertion_point(s: Seq<ItemView>, scope: Seq<char>, n: int, l: Seq<int>, p: int) -> (q:
    int)
    requires
        is_listing_upto(s, scope, n, l),
        0 <= p <= l.len(),
        forall|k: int| 0 <= k < p ==> precedes(s, #[trigger] l[k], n),
    ensures
        p <= q <= l.len(),
        forall|k: int| 0 <= k < q ==> precedes(s, #[trigger] l[k], n),
        forall|k: int| q <= k < l.len() ==> precedes(s, n, #[trigger] l[k]),
    decreases l.len() - p,
{
    if p == l.len() {
        p
    } else if precedes(s, l[p], n) {
        lemma_insertion_point(s, scope, n, l, p + 1)
    } else {
        assert forall|k: int| p <= k < l.len() implies precedes(s, n, #[trigger] l[k]) by {
            if k > p {
                assert(precedes(s, l[p], l[k]));
            }
        }
        p
    }
}

/// Inserting record `n` at its sorted place extends a listing by one record.
pub(crate) proof fn lemma_insert_step(s: Seq<ItemView>, scope: Seq<char>, n: int, l: Seq<int>, p: int)
    requires
        is_listing_upto(s, scope, n, l),
        is_member(s, scope, n),
        0 <= p <= l.len(),
        forall|k: int| 0 <= k < p ==> precedes(s, #[trigger] l[k], n),
        forall|k: int| p <= k < l.len() ==> precedes(s, n, #[trigger] l[k]),
    ensures
        is_listing_upto(s, scope, n + 1, l.insert(p, n)),
{
    let l2 = l.insert(p, n);
    l.insert_ensures(p, n);
    assert forall|a: int, b: int| 0 <= a < b < l2.len() implies #[trigger] precedes(
        s,
        l2[a],
        l2[b],
    ) by {
        if a < p && b < p {
            assert(precedes(s, l[a], l[b]));
        } else if a < p && b == p {
        } else if a < p {
            assert(l2[b] == l[b - 1]);
            assert(precedes(s, l[a], l[b - 1]));
        } else if a == p {
            assert(l2[b] == l[b - 1]);
        } else {
            assert(l2[a] == l[a - 1]);
            assert(l2[b] == l[b - 1]);
            assert(precedes(s, l[a - 1], l[b - 1]));
        }
    }
    assert forall|i: int| 0 <= i < n + 1 && is_member(s, scope, i) implies #[trigger] l2.contains(
        i,
    ) by {
        if i == n {
            assert(l2[p] == i);
        } else {
            assert(l.contains(i));
            let k = choose|k: int| 0 <= k < l.len() && l[k] == i;
            if k < p {
                assert(l2[k] == i);
            } else {
                assert(l2[k + 1] == i);
            }
        }
    }
    assert forall|k: int| 0 <= k < l2.len() implies is_member(s, scope, #[trigger] l2[k]) && l2[k]
        < n + 1 by {
        if k < p {
        } else if k == p {
        } else {
            assert(l2[k] == l[k - 1]);
        }
    }
    assert forall|a: int, b: int| 0 <= a < l2.len() && 0 <= b < l2.len() && a != b implies l2[a]
        != l2[b] by {
        if a != p && b != p {
            let a0 = if a < p {
                a
            } else {
                a - 1
            };
            let b0 = if b < p {
                b
            } else {
                b - 1
            };
            assert(l2[a] == l[a0]);
            assert(l2[b] == l[b0]);
        } else if a == p {
            let b0 = if b < p {
                b
            } else {
                b - 1
            };
            assert(l2[b] == l[b0]);
        } else {
            let a0 = if a < p {
                a
            } else {
                a - 1
            };
            assert(l2[a] == l[a0]);
        }
    }
}

/// A listing of the members among the first `n` records exists.
proof fn lemma_listing_upto_exists(s: Seq<ItemView>, scope: Seq<char>, n: int) -> (l: Seq<int>)
    requires
        0 <= n <= s.len(),
    ensures
        is_listing_upto(s, scope, n, l),
    decreases n,
{
    if n == 0 {
        Seq::empty()
    } else {
        let l0 = lemma_listing_upto_exists(s, scope, n - 1);
        if is_member(s, scope, n - 1) {
            let p = lemma_insertion_point(s, scope, n - 1, l0, 0);
            lemma_insert_step(s, scope, n - 1, l0, p);
            l0.insert(p, n - 1)
        } else {
            l0
        }
    }
}

/// Two listings of one scope are equal.
proof fn lemma_listing_unique(s: Seq<ItemView>, scope: Seq<char>, l1: Seq<int>, l2: Seq<int>)
    requires
        is_listing(s, scope, l1),
        is_listing(s, scope, l2),
    ensures
        l1 == l2,
{
    assert(l1.to_set() =~= l2.to_set()) by {
        assert forall|x: int| l1.to_set().contains(x) implies l2.to_set().contains(x) by {
            assert(l1.contains(x));
            let k = choose|k: int| 0 <= k < l1.len() && l1[k] == x;
            assert(is_member(s, scope, l1[k]));
        }
        assert forall|x: int| l2.to_set().contains(x) implies l1.to_set().contains(x) by {
            assert(l2.contains(x));
            let k = choose|k: int| 0 <= k < l2.len() && l2[k] == x;
            assert(is_member(s, scope, l2[k]));
        }
    }
    l1.unique_seq_to_set();
    l2.unique_seq_to_set();
    lemma_listing_prefix_equal(s, scope, l1, l2, l1.len() as int);
    assert(l1 =~= l2);
}

proof fn lemma_listing_prefix_equal(
    s: Seq<ItemView>,
    scope: Seq<char>,
    l1: Seq<int>,
    l2: Seq<int>,
    n: int,
)
    requires
        is_listing(s, scope, l1),
        is_listing(s, scope, l2),
        l1.len() == l2.len(),
        0 <= n <= l1.len(),
    ensures
        forall|k: int| 0 <= k < n ==> l1[k] == l2[k],
    decreases n,
{
    if n > 0 {
        lemma_listing_prefix_equal(s, scope, l1, l2, n - 1);
        let k = n - 1;
        let a = l1[k];
        let b = l2[k];
        if a != b {
            assert(is_member(s, scope, a));
            assert(is_member(s, scope, b));
            assert(l2.contains(a));
            let m = choose|m: int| 0 <= m < l2.len() && l2[m] == a;
            assert(l1.contains(b));
            let m1 = choose|m: int| 0 <= m < l1.len() && l1[m] == b;
            if m < k {
                assert(l1[m] == a);
            }
            if m1 < k {
                assert(l2[m1] == b);
            }
            assert(precedes(s, l2[k], l2[m]));
            assert(precedes(s, l1[k], l1[m1]));
        }
    }
}

/// The listing of a scope is a listing, and the only one.
pub proof fn lemma_listing(s: Seq<ItemView>, scope: Seq<char>)
    ensures
        is_listing(s, scope, listing(s, scope)),
        forall|l: Seq<int>| #[trigger] is_listing(s, scope, l) ==> l == listing(s, scope),
{
    let w = lemma_listing_upto_exists(s, scope, s.len() as int);
    assert(is_listing(s, scope, w));
    assert forall|l: Seq<int>| #[trigger] is_listing(s, scope, l) implies l == listing(s, scope) by {
        lemma_listing_unique(s, scope, l, listing(s, scope));
    }
}

} // verus!
