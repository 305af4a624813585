use vstd::prelude::*;

use crate::error::OrderError;

verus! {

/// `target` constrained into `[0, len]`.
pub open spec fn clamp(target: int, len: int) -> int {
    if target < 0 {
        0
    } else if target > len {
        len
    } else {
        target
    }
}

/// The ids of a listing, as character sequences.
pub open spec fn ids_view(v: Seq<String>) -> Seq<Seq<char>> {
    v.map_values(|s: String| s@)
}

/// The order of one scope after its element at `from` is moved to the requested
/// index: the element is taken out, then put back at the index clamped into the
/// shortened order.
pub open spec fn moved_within<T>(s: Seq<T>, from: int, target: int) -> Seq<T> {
    s.remove(from).insert(clamp(target, s.len() - 1), s[from])
}

/// The destination order after `item` enters it at the requested index, clamped
/// into `[0, dest.len()]`.
pub open spec fn entered<T>(dest: Seq<T>, item: T, target: int) -> Seq<T> {
    dest.insert(clamp(target, dest.len() as int), item)
}

/// Taking out and mapping commute.
pub proof fn lemma_map_remove<A, B>(s: Seq<A>, i: int, g: spec_fn(A) -> B)
    requires
        0 <= i < s.len(),
    ensures
        s.remove(i).map_values(g) == s.map_values(g).remove(i),
{
    assert(s.remove(i).map_values(g) =~= s.map_values(g).remove(i));
}

/// Putting in and mapping commute.
pub proof fn lemma_map_insert<A, B>(s: Seq<A>, i: int, a: A, g: spec_fn(A) -> B)
    requires
        0 <= i <= s.len(),
    ensures
        s.insert(i, a).map_values(g) == s.map_values(g).insert(i, g(a)),
{
    assert(s.insert(i, a).map_values(g) =~= s.map_values(g).insert(i, g(a)));
}

/// Moving within an order and mapping commute.
pub proof fn lemma_map_moved<A, B>(s: Seq<A>, from: int, target: int, g: spec_fn(A) -> B)
    requires
        0 <= from < s.len(),
    ensures
        moved_within(s, from, target).map_values(g) == moved_within(s.map_values(g), from, target),
{
    lemma_map_remove(s, from, g);
    lemma_map_insert(s.remove(from), clamp(target, s.len() - 1), s[from], g);
}

/// Moving within an order keeps its elements, each as often as before.
pub proof fn lemma_moved_same_elements<T>(s: Seq<T>, from: int, target: int)
    requires
        0 <= from < s.len(),
    ensures
        moved_within(s, from, target).len() == s.len(),
        s.no_duplicates() ==> moved_within(s, from, target).no_duplicates(),
        forall|x: T| #[trigger] moved_within(s, from, target).contains(x) <==> s.contains(x),
{
    let r = s.remove(from);
    let c = clamp(target, s.len() - 1);
    let m = r.insert(c, s[from]);
    s.remove_ensures(from);
    r.insert_ensures(c, s[from]);
    // index in `s` of the element at `k` in `m`
    let src = |k: int|
        if k == c {
            from
        } else {
            let j = if k < c {
                k
            } else {
                k - 1
            };
            if j < from {
                j
            } else {
                j + 1
            }
        };
    assert forall|k: int| 0 <= k < m.len() implies #[trigger] m[k] == s[src(k)] && 0 <= src(k) < s.len() by {
        if k != c {
            let j = if k < c {
                k
            } else {
                k - 1
            };
            assert(m[k] == r[j]);
        }
    }
    if s.no_duplicates() {
        assert forall|a: int, b: int| 0 <= a < m.len() && 0 <= b < m.len() && a != b implies m[a]
            != m[b] by {
            assert(m[a] == s[src(a)]);
            assert(m[b] == s[src(b)]);
        }
    }
    assert forall|x: T| #[trigger] m.contains(x) <==> s.contains(x) by {
        if m.contains(x) {
            let k = choose|k: int| 0 <= k < m.len() && m[k] == x;
            assert(s[src(k)] == x);
        }
        if s.contains(x) {
            let i = choose|i: int| 0 <= i < s.len() && s[i] == x;
            if i == from {
                assert(m[c] == x);
            } else {
                let j = if i < from {
                    i
                } else {
                    i - 1
                };
                assert(r[j] == x);
                if j < c {
                    assert(m[j] == x);
                } else {
                    assert(m[j + 1] == x);
                }
            }
        }
    }
}

/// A requested index below zero acts as index zero, and one past the end acts as
/// the end, for a move within one order and for a move into another.
pub proof fn lemma_clamping<T>(s: Seq<T>, from: int, dest: Seq<T>, item: T, target: int)
    requires
        0 <= from < s.len(),
    ensures
        target < 0 ==> moved_within(s, from, target) == moved_within(s, from, 0),
        target >= s.len() - 1 ==> moved_within(s, from, target) == moved_within(
            s,
            from,
            s.len() - 1,
        ),
        target < 0 ==> entered(dest, item, target) == entered(dest, item, 0),
        target >= dest.len() ==> entered(dest, item, target) == entered(
            dest,
            item,
            dest.len() as int,
        ),
{
}

/// Moving an element to the index it already holds leaves the order as it was.
pub proof fn lemma_move_in_place<T>(s: Seq<T>, from: int)
    requires
        0 <= from < s.len(),
    ensures
        moved_within(s, from, from) == s,
{
    s.remove_ensures(from);
    s.remove(from).insert_ensures(from, s[from]);
    assert(moved_within(s, from, from) =~= s);
}

/// Clamps a requested index into `[0, len]`: a negative index becomes 0, one past
/// the end becomes `len` (append).
pub fn clamp_index(target: i64, len: usize) -> (r: usize)
    ensures
        r as int == clamp(target as int, len as int),
{
    if target < 0 {
        0
    } else if target as u64 as u128 > len as u128 {
        len
    } else {
        target as usize
    }
}

/// Index given to a new member of a scope that holds `count` members: the
/// requested index clamped into `[0, count]`, or `count` (append) when none is
/// requested.
pub fn insert_position(count: usize, requested: Option<i64>) -> (r: usize)
    ensures
        r as int == match requested {
            Some(t) => clamp(t as int, count as int),
            None => count as int,
        },
{
    match requested {
        Some(t) => clamp_index(t, count),
        None => count,
    }
}

/// Moves the element at `from` to `target` inside one order.
pub fn move_within<T>(order: Vec<T>, from: usize, target: i64) -> (r: Vec<T>)
    requires
        from < order.len(),
    ensures
        r@ == moved_within(order@, from as int, target as int),
{
    let mut order = order;
    let item = order.remove(from);
    let at = clamp_index(target, order.len());
    order.insert(at, item);
    order
}

/// Moves the element at `from` of `source` into `dest` at `target`; returns the
/// two new orders.
pub fn move_across<T>(source: Vec<T>, from: usize, dest: Vec<T>, target: i64) -> (r: (Vec<T>, Vec<T>))
    requires
        from < source.len(),
    ensures
        r.0@ == source@.remove(from as int),
        r.1@ == entered(dest@, source@[from as int], target as int),
{
    let mut source = source;
    let mut dest = dest;
    let item = source.remove(from);
    let at = clamp_index(target, dest.len());
    dest.insert(at, item);
    (source, dest)
}

/// Index of the first id of `ids` equal to `id`.
pub fn position_of(ids: &Vec<String>, id: &String) -> (r: Option<usize>)
    ensures
        match r {
            Some(i) => i < ids@.len() && ids@[i as int]@ == id@ && forall|j: int|
                0 <= j < i ==> #[trigger] ids@[j]@ != id@,
            None => forall|j: int| 0 <= j < ids@.len() ==> #[trigger] ids@[j]@ != id@,
        },
{
    let mut i: usize = 0;
    while i < ids.len()
        invariant
            i <= ids@.len(),
            forall|j: int| 0 <= j < i ==> #[trigger] ids@[j]@ != id@,
        decreases ids@.len() - i,
    {
        if ids[i] == *id {
            return Some(i);
        }
        i = i + 1;
    }
    None
}

/// The new orders that a move writes.
pub enum MovePlan {
    /// Source and destination are one scope: its new order.
    Within(Vec<String>),
    /// The new source order and the new destination order.
    Across(Vec<String>, Vec<String>),
}

/// Plans a move of `item`. `source` is the current order of its scope; `dest`
/// is the current order of the destination scope, or `None` when the item stays
/// in its scope. Fails with `NotFound` when `item` is not in `source`.
pub fn plan_move(item: &String, source: Vec<String>, dest: Option<Vec<String>>, target: i64) -> (r:
    Result<MovePlan, OrderError>)
    ensures
        (exists|j: int| 0 <= j < source@.len() && #[trigger] source@[j]@ == item@) <==> r is Ok,
        r is Err ==> r == Err::<MovePlan, OrderError>(OrderError::NotFound),
        forall|f: int|
            0 <= f < source@.len() && source@[f]@ == item@ && (forall|j: int|
                0 <= j < f ==> #[trigger] source@[j]@ != item@) ==> match (dest, r) {
                (None, Ok(MovePlan::Within(o))) => ids_view(o@) == moved_within(
                    ids_view(source@),
                    f,
                    target as int,
                ),
                (Some(d), Ok(MovePlan::Across(s, o))) => ids_view(s@) == ids_view(source@).remove(f)
                    && ids_view(o@) == entered(ids_view(d@), item@, target as int),
                _ => false,
            },
{
    match position_of(&source, item) {
        None => Err(OrderError::NotFound),
        Some(f) => {
            match dest {
                None => {
                    let o = move_within(source, f, target);
                    proof {
                        let s0 = ids_view(source@);
                        assert(ids_view(o@) =~= moved_within(s0, f as int, target as int));
                    }
                    Ok(MovePlan::Within(o))
                },
                Some(d) => {
                    let ghost src = source@;
                    let ghost dv = d@;
                    let (s, o) = move_across(source, f, d, target);
                    proof {
                        assert(ids_view(s@) =~= ids_view(src).remove(f as int));
                        assert(ids_view(o@) =~= entered(ids_view(dv), item@, target as int));
                    }
                    Ok(MovePlan::Across(s, o))
                },
            }
        },
    }
}

} // verus!
