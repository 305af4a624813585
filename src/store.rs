use vstd::prelude::*;

use crate::error::OrderError;
use crate::model::{
    all_dense, apply_order, created, deleted, dense, find_id, has_id, ints,
    is_listing, is_listing_upto, is_member, lemma_apply_order, lemma_apply_order_other, lemma_created,
    lemma_deleted, lemma_index_of_distinct, lemma_insert_step, lemma_listing,
    lemma_moved_across, lemma_moved_within_scope, lemma_renumber_dense, listed_ids, listing,
    moved, precedes, rank, renumbered, unique_ids, with_position, with_scope, ItemView,
};
use crate::order::{
    clamp, entered, ids_view, insert_position, move_across, move_within, moved_within,
};

verus! {

/// One member of an ordered scope, as the store holds it.
pub struct OrderedItem {
    pub id: String,
    /// Id of the container that orders this item.
    pub scope: String,
    pub position: u64,
    /// Creation time; breaks ties between equal positions.
    pub created_at: u64,
}

impl View for OrderedItem {
    type V = ItemView;

    open spec fn view(&self) -> ItemView {
        ItemView {
            id: self.id@,
            scope: self.scope@,
            position: self.position as int,
            created_at: self.created_at as int,
        }
    }
}

/// Index of `x` in `order`, which holds it.
fn index_in(order: &Vec<usize>, x: usize) -> (r: usize)
    requires
        ints(order@).contains(x as int),
        ints(order@).no_duplicates(),
    ensures
        r < order@.len(),
        r as int == ints(order@).index_of(x as int),
{
    let ghost l = ints(order@);
    let ghost w = choose|w: int| 0 <= w < l.len() && l[w] == x as int;
    let mut i: usize = 0;
    while i < order.len()
        invariant
            l == ints(order@),
            l.no_duplicates(),
            0 <= w < l.len() && l[w] == x as int,
            i <= w,
            forall|j: int| 0 <= j < i ==> l[j] != x as int,
        decreases order@.len() - i,
    {
        if order[i] == x {
            proof {
                assert(l[i as int] == x as int);
                lemma_index_of_distinct(l, i as int);
            }
            return i;
        }
        i = i + 1;
    }
    i
}

/// The store of every ordered item, with the read order and the renumbering that
/// keeps each scope's positions dense.
pub struct PositionStore {
    items: Vec<OrderedItem>,
}

impl View for PositionStore {
    type V = Seq<ItemView>;

    closed spec fn view(&self) -> Seq<ItemView> {
        self.items@.map_values(|it: OrderedItem| it@)
    }
}

impl PositionStore {
    fn precedes_exec(&self, i: usize, j: usize) -> (r: bool)
        requires
            i < self@.len(),
            j < self@.len(),
        ensures
            r == precedes(self@, i as int, j as int),
    {
        let a = &self.items[i];
        let b = &self.items[j];
        a.position < b.position || (a.position == b.position && (a.created_at < b.created_at || (
        a.created_at == b.created_at && i < j)))
    }

    /// Gives each record listed in `order` its index in `order` as position.
    fn write_order(&mut self, order: &Vec<usize>)
        requires
            forall|k: int| 0 <= k < order@.len() ==> order@[k] < old(self)@.len(),
            ints(order@).no_duplicates(),
        ensures
            final(self)@ == apply_order(old(self)@, ints(order@)),
    {
        let ghost s = self@;
        let ghost l = ints(order@);
        let mut k: usize = 0;
        while k < order.len()
            invariant
                s.len() == self@.len(),
                l == ints(order@),
                l.no_duplicates(),
                k <= order@.len(),
                forall|j: int| 0 <= j < order@.len() ==> order@[j] < s.len(),
                forall|j: int| 0 <= j < k ==> #[trigger] self@[l[j]] == with_position(s[l[j]], j),
                forall|i: int|
                    0 <= i < s.len() && !l.subrange(0, k as int).contains(i) ==> #[trigger] self@[i]
                        == s[i],
            decreases order@.len() - k,
        {
            let i = order[k];
            assert(l[k as int] == i as int);
            let ghost before = self@;
            let ghost old_items = self.items@;
            proof {
                if l.subrange(0, k as int).contains(i as int) {
                    let m = choose|m: int| 0 <= m < k && l.subrange(0, k as int)[m] == i as int;
                    assert(l[m] == l[k as int]);
                }
            }
            self.items[i].position = k as u64;
            proof {
                assert(self.items@[i as int].position == k as u64);
                assert(self.items@[i as int].id == old_items[i as int].id);
                assert(self.items@[i as int].scope == old_items[i as int].scope);
                assert(self.items@[i as int].created_at == old_items[i as int].created_at);
                assert(before[i as int] == s[i as int]);
                assert(before[i as int] == old_items[i as int]@);
                assert(self@[i as int] == with_position(s[i as int], k as int));
                assert forall|x: int| 0 <= x < s.len() && x != i implies #[trigger] self@[x]
                    == before[x] by {}
                assert forall|j: int| 0 <= j < k + 1 implies #[trigger] self@[l[j]] == with_position(
                    s[l[j]],
                    j,
                ) by {
                    if j < k {
                        assert(l[j] != l[k as int]);
                    }
                }
                assert forall|x: int|
                    0 <= x < s.len() && !l.subrange(0, k + 1).contains(x) implies #[trigger] self@[x]
                    == s[x] by {
                    if x == i {
                        assert(l.subrange(0, k + 1)[k as int] == x);
                    } else {
                        if l.subrange(0, k as int).contains(x) {
                            let m = choose|m: int| 0 <= m < k && l.subrange(0, k as int)[m] == x;
                            assert(l.subrange(0, k + 1)[m] == x);
                        }
                    }
                }
            }
            k = k + 1;
        }
        proof {
            assert(l.subrange(0, l.len() as int) =~= l);
            assert forall|i: int| 0 <= i < s.len() implies #[trigger] self@[i] == apply_order(s, l)[i] by {
                if l.contains(i) {
                    let m = choose|m: int| 0 <= m < l.len() && l[m] == i;
                    lemma_index_of_distinct(l, m);
                }
            }
            assert(self@ =~= apply_order(s, l));
        }
    }

    /// Index of the first record with id `id`.
    fn find(&self, id: &String) -> (r: Option<usize>)
        ensures
            match r {
                Some(i) => has_id(self@, id@) && i as int == find_id(self@, id@) && i < self@.len()
                    && self@[i as int].id == id@,
                None => !has_id(self@, id@),
            },
    {
        let mut i: usize = 0;
        while i < self.items.len()
            invariant
                i <= self@.len(),
                forall|j: int| 0 <= j < i ==> #[trigger] self@[j].id != id@,
            decreases self@.len() - i,
        {
            if self.items[i].id == *id {
                proof {
                    let c = find_id(self@, id@);
                    assert(self@[i as int].id == id@);
                    if c != i {
                        assert(self@[c].id == id@);
                    }
                }
                return Some(i);
            }
            i = i + 1;
        }
        None
    }

    /// Overwrites the position of item `id`, whatever that does to its scope.
    pub fn set_position(&mut self, id: &String, position: u64) -> (r: Result<(), OrderError>)
        ensures
            r is Ok <==> has_id(old(self)@, id@),
            r is Err ==> r == Err::<(), OrderError>(OrderError::NotFound) && final(self)@ == old(self)@,
            r is Ok ==> final(self)@ == old(self)@.update(
                find_id(old(self)@, id@),
                with_position(old(self)@[find_id(old(self)@, id@)], position as int),
            ),
            unique_ids(old(self)@) ==> unique_ids(final(self)@),
    {
        match self.find(id) {
            None => Err(OrderError::NotFound),
            Some(i) => {
                let ghost s = self@;
                self.items[i].position = position;
                proof {
                    assert(self@ =~= s.update(i as int, with_position(s[i as int], position as int)));
                }
                Ok(())
            },
        }
    }

    /// Adds item `id` to `scope` at the requested index, clamped into
    /// `[0, n]` for a scope of `n` members, or at `n` when none is requested, and
    /// renumbers the scope. Returns the index given. Fails with `StorageFailure`
    /// when the id is taken.
    pub fn create_item(&mut self, id: String, scope: String, requested: Option<i64>, created_at: u64) -> (r:
        Result<usize, OrderError>)
        ensures
            r is Err <==> has_id(old(self)@, id@),
            r is Err ==> r == Err::<usize, OrderError>(OrderError::StorageFailure) && final(self)@
                == old(self)@,
            r matches Ok(p) ==> {
                let n = listing(old(self)@, scope@).len() as int;
                &&& p as int == match requested {
                    Some(t) => clamp(t as int, n),
                    None => n,
                }
                &&& final(self)@ == created(old(self)@, id@, scope@, p as int, created_at as int)
                &&& listed_ids(final(self)@, scope@) == listed_ids(old(self)@, scope@).insert(
                    p as int,
                    id@,
                )
                &&& dense(final(self)@, scope@)
            },
            all_dense(old(self)@) ==> all_dense(final(self)@),
            unique_ids(old(self)@) ==> unique_ids(final(self)@),
    {
        if self.find(&id).is_some() {
            return Err(OrderError::StorageFailure);
        }
        let ghost s = self@;
        let mut order = self.ordered_indices(&scope);
        let p = insert_position(order.len(), requested);
        let n = self.items.len();
        let ghost v = ItemView { id: id@, scope: scope@, position: p as int, created_at: created_at as int };
        self.items.push(OrderedItem { id, scope, position: p as u64, created_at });
        proof {
            assert(self@ =~= s.push(v));
            lemma_listing(s, v.scope);
        }
        order.insert(p, n);
        proof {
            let l = listing(s, v.scope);
            assert(ints(order@) =~= l.insert(p as int, n as int));
            lemma_created(s, v.id, v.scope, p as int, created_at as int);
            assert forall|k: int| 0 <= k < order@.len() implies order@[k] < self@.len() by {
                assert(ints(order@)[k] == order@[k] as int);
                assert(is_member(s.push(v), v.scope, ints(order@)[k]));
            }
        }
        self.write_order(&order);
        proof {
            let f = self@;
            lemma_created(s, v.id, v.scope, p as int, created_at as int);
            if all_dense(s) {
                assert forall|other: Seq<char>| #[trigger] dense(f, other) by {
                    if other != v.scope {
                        assert(dense(s, other));
                    }
                }
            }
            if unique_ids(s) {
                assert forall|i: int, j: int|
                    0 <= i < f.len() && 0 <= j < f.len() && i != j implies f[i].id != f[j].id by {
                    if i == s.len() {
                        assert(s[j].id != v.id);
                    } else if j == s.len() {
                        assert(s[i].id != v.id);
                    }
                }
            }
        }
        Ok(p)
    }

    /// Takes item `id` out of `scope` and renumbers the scope. Fails with
    /// `NotFound` when no item has that id, and with `OwnershipViolation` when
    /// the item belongs to another scope.
    #[verifier::rlimit(50)]
    pub fn delete_item(&mut self, id: &String, scope: &String) -> (r: Result<(), OrderError>)
        ensures
            r is Ok <==> has_id(old(self)@, id@) && old(self)@[find_id(old(self)@, id@)].scope
                == scope@,
            !has_id(old(self)@, id@) ==> r == Err::<(), OrderError>(OrderError::NotFound),
            has_id(old(self)@, id@) && old(self)@[find_id(old(self)@, id@)].scope != scope@ ==> r
                == Err::<(), OrderError>(OrderError::OwnershipViolation),
            r is Err ==> final(self)@ == old(self)@,
            r is Ok ==> {
                &&& final(self)@ == deleted(old(self)@, id@, scope@)
                &&& dense(final(self)@, scope@)
                &&& listed_ids(final(self)@, scope@) == listed_ids(old(self)@, scope@).remove(
                    listing(old(self)@, scope@).index_of(find_id(old(self)@, id@)),
                )
            },
            all_dense(old(self)@) ==> all_dense(final(self)@),
            unique_ids(old(self)@) ==> unique_ids(final(self)@),
    {
        match self.find(id) {
            None => Err(OrderError::NotFound),
            Some(d) => {
                if !(self.items[d].scope == *scope) {
                    return Err(OrderError::OwnershipViolation);
                }
                let ghost s = self@;
                self.items.remove(d);
                proof {
                    assert(self@ =~= s.remove(d as int));
                }
                self.renumber(scope);
                proof {
                    lemma_deleted(s, d as int, scope@);
                }
                Ok(())
            },
        }
    }

    /// Moves item `id` from `source` to index `target` of `dest`: within
    /// `source` when the two are one scope, else across, renumbering both
    /// scopes. The index is clamped into the valid range. Fails with `NotFound`
    /// when no item has that id, and with `OwnershipViolation` when the item is
    /// not in `source`.
    pub fn move_item(&mut self, id: &String, source: &String, dest: &String, target: i64) -> (r: Result<
        (),
        OrderError,
    >)
        ensures
            r is Ok <==> has_id(old(self)@, id@) && old(self)@[find_id(old(self)@, id@)].scope
                == source@,
            !has_id(old(self)@, id@) ==> r == Err::<(), OrderError>(OrderError::NotFound),
            has_id(old(self)@, id@) && old(self)@[find_id(old(self)@, id@)].scope != source@ ==> r
                == Err::<(), OrderError>(OrderError::OwnershipViolation),
            r is Err ==> final(self)@ == old(self)@,
            r is Ok ==> final(self)@ == moved(old(self)@, id@, source@, dest@, target as int),
            r is Ok && source@ == dest@ ==> {
                &&& listed_ids(final(self)@, source@) == moved_within(
                    listed_ids(old(self)@, source@),
                    rank(old(self)@, source@, id@),
                    target as int,
                )
                &&& dense(final(self)@, source@)
            },
            r is Ok && source@ != dest@ ==> {
                &&& listed_ids(final(self)@, source@) == listed_ids(old(self)@, source@).remove(
                    rank(old(self)@, source@, id@),
                )
                &&& listed_ids(final(self)@, dest@) == entered(
                    listed_ids(old(self)@, dest@),
                    id@,
                    target as int,
                )
                &&& dense(final(self)@, source@)
                &&& dense(final(self)@, dest@)
            },
            all_dense(old(self)@) ==> all_dense(final(self)@),
            unique_ids(old(self)@) ==> unique_ids(final(self)@),
    {
        let x = match self.find(id) {
            None => {
                return Err(OrderError::NotFound);
            },
            Some(x) => x,
        };
        if !(self.items[x].scope == *source) {
            return Err(OrderError::OwnershipViolation);
        }
        let ghost s = self@;
        proof {
            assert(is_member(s, source@, x as int));
        }
        if *source == *dest {
            self.move_in_scope(x, source, target);
            proof {
                lemma_moved_within_scope(s, x as int, source@, target as int);
            }
        } else {
            self.move_to_scope(x, source, dest, target);
            proof {
                lemma_moved_across(s, x as int, source@, dest@, target as int);
            }
        }
        Ok(())
    }

    fn move_in_scope(&mut self, x: usize, scope: &String, target: i64)
        requires
            is_member(old(self)@, scope@, x as int),
        ensures
            final(self)@ == apply_order(
                old(self)@,
                moved_within(
                    listing(old(self)@, scope@),
                    listing(old(self)@, scope@).index_of(x as int),
                    target as int,
                ),
            ),
    {
        let ghost s = self@;
        let la = self.ordered_indices(scope);
        proof {
            lemma_listing(s, scope@);
        }
        let f = index_in(&la, x);
        let lm = move_within(la, f, target);
        proof {
            lemma_moved_within_scope(s, x as int, scope@, target as int);
            assert(ints(lm@) =~= moved_within(ints(la@), f as int, target as int));
            assert forall|k: int| 0 <= k < lm@.len() implies lm@[k] < self@.len() by {
                assert(ints(lm@)[k] == lm@[k] as int);
                assert(is_member(s, scope@, ints(lm@)[k]));
            }
        }
        self.write_order(&lm);
    }

    fn move_to_scope(&mut self, x: usize, source: &String, dest: &String, target: i64)
        requires
            is_member(old(self)@, source@, x as int),
            source@ != dest@,
        ensures
            final(self)@ == apply_order(
                apply_order(
                    old(self)@.update(x as int, with_scope(old(self)@[x as int], dest@)),
                    listing(old(self)@, source@).remove(
                        listing(old(self)@, source@).index_of(x as int),
                    ),
                ),
                entered(listing(old(self)@, dest@), x as int, target as int),
            ),
    {
        let ghost s = self@;
        let la = self.ordered_indices(source);
        proof {
            lemma_listing(s, source@);
        }
        let f = index_in(&la, x);
        let lb = self.ordered_indices(dest);
        let ghost la0 = la@;
        let ghost lb0 = lb@;
        let (la2, lb2) = move_across(la, f, lb, target);
        proof {
            lemma_moved_across(s, x as int, source@, dest@, target as int);
            assert(ints(la2@) =~= ints(la0).remove(f as int));
            assert(ints(lb2@) =~= entered(ints(lb0), x as int, target as int));
        }
        self.items[x].scope = dest.clone();
        let ghost s1 = self@;
        proof {
            assert(s1 =~= s.update(x as int, with_scope(s[x as int], dest@)));
            assert forall|k: int| 0 <= k < la2@.len() implies la2@[k] < self@.len() by {
                assert(ints(la2@)[k] == la2@[k] as int);
                assert(is_member(s1, source@, ints(la2@)[k]));
            }
        }
        self.write_order(&la2);
        proof {
            assert forall|k: int| 0 <= k < lb2@.len() implies lb2@[k] < self@.len() by {
                assert(ints(lb2@)[k] == lb2@[k] as int);
                assert(is_member(self@, dest@, ints(lb2@)[k]));
            }
        }
        self.write_order(&lb2);
    }

    /// An empty store.
    pub fn new() -> (r: Self)
        ensures
            r@ == Seq::<ItemView>::empty(),
            all_dense(r@),
            unique_ids(r@),
    {
        let r = PositionStore { items: Vec::new() };
        proof {
            assert(r@ =~= Seq::<ItemView>::empty());
            assert forall|scope: Seq<char>| #[trigger] dense(r@, scope) by {
                lemma_listing(r@, scope);
                assert(is_listing(r@, scope, Seq::<int>::empty()));
            }
        }
        r
    }

    /// The ids of the members of `scope`, ordered by position, then creation time.
    pub fn list_ordered(&self, scope: &String) -> (r: Vec<String>)
        ensures
            ids_view(r@) == listed_ids(self@, scope@),
    {
        let order = self.ordered_indices(scope);
        let ghost l = listing(self@, scope@);
        let mut r: Vec<String> = Vec::new();
        let mut k: usize = 0;
        while k < order.len()
            invariant
                ints(order@) == l,
                l == listing(self@, scope@),
                forall|j: int| 0 <= j < order@.len() ==> order@[j] < self@.len(),
                k <= order@.len(),
                r@.len() == k,
                ids_view(r@) == listed_ids(self@, scope@).subrange(0, k as int),
            decreases order@.len() - k,
        {
            let i = order[k];
            assert(l[k as int] == i as int);
            let id = self.items[i].id.clone();
            let ghost r0 = r@;
            r.push(id);
            proof {
                assert(id@ == self@[i as int].id);
                assert(listed_ids(self@, scope@)[k as int] == self@[l[k as int]].id);
                assert forall|j: int| 0 <= j < k implies #[trigger] ids_view(r@)[j] == ids_view(r0)[j] by {
                    assert(r@[j] == r0[j]);
                }
                assert(ids_view(r@)[k as int] == id@);
                assert(ids_view(r@) =~= listed_ids(self@, scope@).subrange(0, k + 1));
            }
            k = k + 1;
        }
        proof {
            assert(listed_ids(self@, scope@).subrange(0, k as int) =~= listed_ids(self@, scope@));
        }
        r
    }

    /// Renumbers the members of `scope` 0, 1, ... in read order.
    pub fn renumber(&mut self, scope: &String)
        ensures
            final(self)@ == renumbered(old(self)@, scope@),
            dense(final(self)@, scope@),
            listed_ids(final(self)@, scope@) == listed_ids(old(self)@, scope@),
            dense(old(self)@, scope@) ==> final(self)@ == old(self)@,
            forall|other: Seq<char>|
                other != scope@ ==> (#[trigger] dense(final(self)@, other) <==> dense(
                    old(self)@,
                    other,
                )) && listed_ids(final(self)@, other) == listed_ids(old(self)@, other),
            all_dense(old(self)@) ==> all_dense(final(self)@),
            unique_ids(old(self)@) ==> unique_ids(final(self)@),
    {
        let ghost s = self@;
        let order = self.ordered_indices(scope);
        proof {
            lemma_listing(s, scope@);
        }
        self.write_order(&order);
        proof {
            let l = listing(s, scope@);
            lemma_apply_order(s, scope@, l);
            assert(listed_ids(self@, scope@) =~= listed_ids(s, scope@));
            if dense(s, scope@) {
                lemma_renumber_dense(s, scope@);
            }
            assert forall|other: Seq<char>| other != scope@ implies (#[trigger] dense(self@, other)
                <==> dense(s, other)) && listed_ids(self@, other) == listed_ids(s, other) by {
                lemma_apply_order_other(s, scope@, l, other);
            }
            if all_dense(s) {
                assert forall|other: Seq<char>| #[trigger] dense(self@, other) by {
                    if other != scope@ {
                        lemma_apply_order_other(s, scope@, l, other);
                    }
                }
            }
        }
    }

    /// The members of `scope` in read order, as record indices.
    fn ordered_indices(&self, scope: &String) -> (r: Vec<usize>)
        ensures
            ints(r@) == listing(self@, scope@),
            forall|k: int| 0 <= k < r@.len() ==> r@[k] < self@.len(),
    {
        let ghost s = self@;
        let mut r: Vec<usize> = Vec::new();
        let mut n: usize = 0;
        while n < self.items.len()
            invariant
                s == self@,
                n <= s.len(),
                is_listing_upto(s, scope@, n as int, ints(r@)),
                forall|k: int| 0 <= k < r@.len() ==> #[trigger] r@[k] < n,
            decreases s.len() - n,
        {
            if self.items[n].scope == *scope {
                let ghost l = ints(r@);
                let mut p: usize = 0;
                while p < r.len() && self.precedes_exec(r[p], n)
                    invariant
                        s == self@,
                        n < s.len(),
                        l == ints(r@),
                        is_listing_upto(s, scope@, n as int, l),
                        p <= r@.len(),
                        forall|k: int| 0 <= k < r@.len() ==> #[trigger] r@[k] < n,
                        forall|k: int| 0 <= k < p ==> precedes(s, #[trigger] l[k], n as int),
                    decreases r@.len() - p,
                {
                    p = p + 1;
                }
                proof {
                    if p < r@.len() {
                        assert(!precedes(s, l[p as int], n as int));
                        assert forall|k: int| p <= k < l.len() implies precedes(
                            s,
                            n as int,
                            #[trigger] l[k],
                        ) by {
                            if k > p {
                                assert(precedes(s, l[p as int], l[k]));
                            }
                        }
                    }
                    lemma_insert_step(s, scope@, n as int, l, p as int);
                }
                r.insert(p, n);
                proof {
                    assert(ints(r@) =~= l.insert(p as int, n as int));
                    assert forall|k: int| 0 <= k < r@.len() implies #[trigger] r@[k] < n + 1 by {
                        assert(ints(r@)[k] == r@[k] as int);
                    }
                }
            }
            n = n + 1;
        }
        proof {
            assert(is_listing(s, scope@, ints(r@)));
            lemma_listing(s, scope@);
        }
        r
    }

    /// Number of items held, over all scopes.
    pub fn len(&self) -> (r: usize)
        ensures
            r == self@.len(),
    {
        self.items.len()
    }

    /// Stored position of item `id`, `None` when no item has that id.
    pub fn position(&self, id: &String) -> (r: Option<u64>)
        ensures
            match r {
                Some(p) => has_id(self@, id@) && p as int == self@[find_id(self@, id@)].position,
                None => !has_id(self@, id@),
            },
    {
        match self.find(id) {
            Some(i) => Some(self.items[i].position),
            None => None,
        }
    }

    /// Scope of item `id`, `None` when no item has that id.
    pub fn scope_of(&self, id: &String) -> (r: Option<String>)
        ensures
            match r {
                Some(sc) => has_id(self@, id@) && sc@ == self@[find_id(self@, id@)].scope,
                None => !has_id(self@, id@),
            },
    {
        match self.find(id) {
            Some(i) => Some(self.items[i].scope.clone()),
            None => None,
        }
    }
}

} // verus!
