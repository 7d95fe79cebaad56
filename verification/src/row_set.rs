//! Ordered sets of rows, the tables of the library's database.
use crate::order::{is_ordering, key_le, key_less, key_lt, lemma_key_le_transitive};
use crate::order::{lemma_key_order, lemma_ordering, lemma_ordering_filter, ordering};
use crate::order::{KeyView, SortKey};
use vstd::prelude::*;

verus! {

/// A row that can be kept in a [`RowSet`]: its key tells it from every other row.
pub trait Row: DeepView + Sized {
    /// The key of a row.
    spec fn row_key(row: Self::V) -> KeyView;

    /// Rows with equal keys are equal.
    proof fn lemma_row_key(a: Self::V, b: Self::V)
        requires
            Self::row_key(a) == Self::row_key(b),
        ensures
            a == b,
    ;

    /// Computes the key of this row.
    fn sort_key(&self) -> (r: SortKey)
        ensures
            r@ == Self::row_key(self.deep_view()),
    ;

    /// A copy of this row.
    fn copy_row(&self) -> (r: Self)
        ensures
            r.deep_view() == self.deep_view(),
    ;
}

/// A set of rows, ordered by key.
pub struct RowSet<T: Row> {
    rows: Vec<T>,
}

/// Whether the keys of `rows` ascend.
spec fn ascending<T: Row>(rows: Seq<T>) -> bool {
    forall|i: int, j: int|
        0 <= i < j < rows.len() ==> #[trigger] key_lt(
            T::row_key(rows[i].deep_view()),
            T::row_key(rows[j].deep_view()),
        )
}

/// Whether `rows` holds the row `row`.
spec fn has_row<T: Row>(rows: Seq<T>, row: T::V) -> bool {
    exists|i: int| 0 <= i < rows.len() && #[trigger] rows[i].deep_view() == row
}

impl<T: Row> RowSet<T> {
    #[verifier::type_invariant]
    spec fn well_formed(self) -> bool {
        ascending(self.rows@)
    }

    /// The rows, in order.
    pub closed spec fn items(self) -> Seq<T::V> {
        Seq::new(self.rows@.len(), |i: int| self.rows@[i].deep_view())
    }
}

impl<T: Row> View for RowSet<T> {
    type V = Set<T::V>;

    closed spec fn view(&self) -> Set<T::V> {
        Set::new(|row: T::V| has_row(self.rows@, row))
    }
}

impl<T: Row> RowSet<T> {
    /// An empty set.
    pub fn new() -> (r: RowSet<T>)
        ensures
            r@ == Set::<T::V>::empty(),
    {
        let r = RowSet { rows: Vec::new() };
        assert(r@ =~= Set::<T::V>::empty());
        r
    }

    /// The number of rows.
    pub fn len(&self) -> (r: usize)
        ensures
            r == self.items().len(),
            is_ordering(self.items(), self@, |row: T::V| T::row_key(row)),
            self.items() == ordering(self@, |row: T::V| T::row_key(row)),
            forall|row: T::V| #[trigger] self@.contains(row) <==> self.items().contains(row),
            self@.finite(),
            self@.len() == r,
    {
        proof {
            use_type_invariant(self);
            let key = |row: T::V| T::row_key(row);
            let items = self.items();
            assert forall|i: int, j: int| 0 <= i < j < items.len() implies #[trigger] key_lt(
                key(items[i]),
                key(items[j]),
            ) by {
                assert(key_lt(
                    T::row_key(self.rows@[i].deep_view()),
                    T::row_key(self.rows@[j].deep_view()),
                ));
            }
            assert forall|row: T::V| #[trigger] self@.contains(row) <==> items.contains(row) by {
                if self@.contains(row) {
                    let i = choose|i: int|
                        0 <= i < self.rows@.len() && #[trigger] self.rows@[i].deep_view() == row;
                    assert(items[i] == row);
                }
                if items.contains(row) {
                    let i = choose|i: int| 0 <= i < items.len() && items[i] == row;
                    assert(self.rows@[i].deep_view() == row);
                }
            }
            lemma_ordering(items, self@, key);
            assert(items.no_duplicates()) by {
                assert forall|i: int, j: int| 0 <= i < j < items.len() implies items[i] != items[j] by {
                    assert(key_lt(key(items[i]), key(items[j])));
                    lemma_key_order(key(items[i]), key(items[i]));
                }
            }
            items.unique_seq_to_set();
            assert(items.to_set() =~= self@);
        }
        self.rows.len()
    }

    /// The row at position `i`.
    pub fn row_at(&self, i: usize) -> (r: &T)
        requires
            i < self.items().len(),
        ensures
            r.deep_view() == self.items()[i as int],
            self@.contains(r.deep_view()),
    {
        &self.rows[i]
    }

    /// The position of the first row that does not come before `row`.
    fn position(&self, row: &T) -> (r: (usize, bool))
        ensures
            r.0 <= self.rows@.len(),
            r.1 ==> r.0 < self.rows@.len() && self.rows@[r.0 as int].deep_view()
                == row.deep_view(),
            r.1 == self@.contains(row.deep_view()),
            forall|i: int|
                0 <= i < r.0 ==> key_lt(
                    T::row_key((#[trigger] self.rows@[i]).deep_view()),
                    T::row_key(row.deep_view()),
                ),
            forall|i: int|
                r.0 <= i < self.rows@.len() ==> key_lt(
                    T::row_key(row.deep_view()),
                    T::row_key((#[trigger] self.rows@[i]).deep_view()),
                ) || (r.1 && i == r.0),
    {
        proof {
            use_type_invariant(self);
        }
        let key = row.sort_key();
        let ghost wanted = T::row_key(row.deep_view());
        let mut low: usize = 0;
        let mut high: usize = self.rows.len();
        while low < high
            invariant
                low <= high <= self.rows@.len(),
                ascending(self.rows@),
                key@ == wanted,
                wanted == T::row_key(row.deep_view()),
                forall|i: int|
                    0 <= i < low ==> key_lt(
                        T::row_key((#[trigger] self.rows@[i]).deep_view()),
                        wanted,
                    ),
                forall|i: int|
                    high <= i < self.rows@.len() ==> key_le(
                        wanted,
                        T::row_key((#[trigger] self.rows@[i]).deep_view()),
                    ),
            decreases high - low,
        {
            let mid: usize = low + (high - low) / 2;
            let mid_key = self.rows[mid].sort_key();
            if key_less(&mid_key, &key) {
                proof {
                    assert forall|i: int| 0 <= i < mid + 1 implies key_lt(
                        T::row_key((#[trigger] self.rows@[i]).deep_view()),
                        wanted,
                    ) by {
                        if i < mid {
                            let a = T::row_key(self.rows@[i].deep_view());
                            let b = T::row_key(self.rows@[mid as int].deep_view());
                            assert(key_lt(a, b));
                            lemma_key_le_transitive(a, b, wanted);
                            lemma_key_order(b, a);
                            lemma_key_order(b, wanted);
                        }
                    }
                }
                low = mid + 1;
            } else {
                proof {
                    lemma_key_order(wanted, mid_key@);
                    assert forall|i: int| mid <= i < self.rows@.len() implies key_le(
                        wanted,
                        T::row_key((#[trigger] self.rows@[i]).deep_view()),
                    ) by {
                        if mid < i {
                            let a = T::row_key(self.rows@[mid as int].deep_view());
                            let b = T::row_key(self.rows@[i].deep_view());
                            assert(key_lt(a, b));
                            lemma_key_le_transitive(wanted, a, b);
                        }
                    }
                }
                high = mid;
            }
        }
        let found = low < self.rows.len() && {
            let low_key = self.rows[low].sort_key();
            !key_less(&key, &low_key)
        };
        proof {
            if low < self.rows@.len() {
                let at = self.rows@[low as int].deep_view();
                lemma_key_order(wanted, T::row_key(at));
                if found {
                    T::lemma_row_key(row.deep_view(), at);
                }
            }
            assert forall|i: int| low <= i < self.rows@.len() implies key_lt(
                wanted,
                T::row_key((#[trigger] self.rows@[i]).deep_view()),
            ) || (found && i == low) by {
                if low < i {
                    let a = T::row_key(self.rows@[low as int].deep_view());
                    let b = T::row_key(self.rows@[i].deep_view());
                    assert(key_lt(a, b));
                    lemma_key_order(a, b);
                    lemma_key_order(b, a);
                }
            }
            lemma_key_order(wanted, wanted);
        }
        (low, found)
    }

    /// Whether `row` is in the set.
    pub fn contains(&self, row: &T) -> (r: bool)
        ensures
            r == self@.contains(row.deep_view()),
    {
        let (_, found) = self.position(row);
        found
    }

    /// The position of the first row that does not come before `row`.
    pub fn index_from(&self, row: &T) -> (r: usize)
        ensures
            r <= self.items().len(),
            forall|i: int|
                0 <= i < r ==> key_lt(
                    T::row_key(#[trigger] self.items()[i]),
                    T::row_key(row.deep_view()),
                ),
            forall|i: int|
                r <= i < self.items().len() ==> key_le(
                    T::row_key(row.deep_view()),
                    T::row_key(#[trigger] self.items()[i]),
                ),
    {
        let (at, _) = self.position(row);
        proof {
            assert forall|i: int| 0 <= i < at implies key_lt(
                T::row_key(#[trigger] self.items()[i]),
                T::row_key(row.deep_view()),
            ) by {
                assert(self.items()[i] == self.rows@[i].deep_view());
            }
            assert forall|i: int| at <= i < self.items().len() implies key_le(
                T::row_key(row.deep_view()),
                T::row_key(#[trigger] self.items()[i]),
            ) by {
                assert(self.items()[i] == self.rows@[i].deep_view());
            }
        }
        at
    }

    /// Puts `row` into the set; tells whether it was not there before.
    pub fn insert(&mut self, row: T) -> (r: bool)
        ensures
            final(self)@ == old(self)@.insert(row.deep_view()),
            r == !old(self)@.contains(row.deep_view()),
    {
        let ghost before = self.rows@;
        let ghost old_view = self@;
        let ghost deep = row.deep_view();
        let (at, found) = self.position(&row);
        proof {
            use_type_invariant(&*self);
        }
        if found {
            assert(self@ =~= old_view.insert(deep));
            return false;
        }
        let mut rows: Vec<T> = Vec::new();
        std::mem::swap(&mut rows, &mut self.rows);
        rows.insert(at, row);
        proof {
            let now = rows@;
            assert forall|i: int, j: int| 0 <= i < j < now.len() implies #[trigger] key_lt(
                T::row_key(now[i].deep_view()),
                T::row_key(now[j].deep_view()),
            ) by {
                let a = if i <= at {
                    i
                } else {
                    i - 1
                };
                let b = if j <= at {
                    j
                } else {
                    j - 1
                };
                if i != at && j != at {
                    assert(now[i] == before[a] && now[j] == before[b]);
                    assert(key_lt(
                        T::row_key(before[a].deep_view()),
                        T::row_key(before[b].deep_view()),
                    ));
                } else if i == at {
                    assert(now[j] == before[b]);
                } else {
                    assert(now[i] == before[a]);
                }
            }
            let new_view = Set::new(|x: T::V| has_row(now, x));
            assert forall|x: T::V| #[trigger] new_view.contains(x) <==> old_view.insert(
                deep,
            ).contains(x) by {
                if new_view.contains(x) {
                    let i = choose|i: int|
                        0 <= i < now.len() && #[trigger] now[i].deep_view() == x;
                    if i != at {
                        let a = if i < at {
                            i
                        } else {
                            i - 1
                        };
                        assert(before[a].deep_view() == x);
                    }
                }
                if old_view.contains(x) {
                    let a = choose|a: int|
                        0 <= a < before.len() && #[trigger] before[a].deep_view() == x;
                    let i = if a < at {
                        a
                    } else {
                        a + 1
                    };
                    assert(now[i].deep_view() == x);
                }
                assert(now[at as int].deep_view() == deep);
            }
            assert(new_view =~= old_view.insert(deep));
        }
        self.rows = rows;
        true
    }

    /// Copies the rows for which `pick` holds, in order.
    pub fn select<F: Fn(&T) -> bool>(
        &self,
        pick: F,
        Ghost(p): Ghost<spec_fn(T::V) -> bool>,
    ) -> (r: Vec<T>)
        requires
            forall|row: &T| #[trigger] pick.requires((row,)),
            forall|row: &T, r: bool| #[trigger]
                pick.ensures((row,), r) ==> r == p(row.deep_view()),
        ensures
            r.deep_view() == ordering(self@.filter(p), |row: T::V| T::row_key(row)),
            is_ordering(r.deep_view(), self@.filter(p), |row: T::V| T::row_key(row)),
    {
        let total = self.len();
        let ghost items = self.items();
        let mut picked: Vec<T> = Vec::new();
        let mut i: usize = 0;
        proof {
            reveal(Seq::filter);
            assert(items.take(0) =~= seq![]);
            assert(picked.deep_view() =~= items.take(0).filter(p));
        }
        while i < total
            invariant
                i <= total,
                total == items.len(),
                items == self.items(),
                forall|row: &T| #[trigger] pick.requires((row,)),
                forall|row: &T, r: bool| #[trigger]
                    pick.ensures((row,), r) ==> r == p(row.deep_view()),
                picked.deep_view() == items.take(i as int).filter(p),
            decreases total - i,
        {
            let row = self.row_at(i);
            let ghost before = picked.deep_view();
            proof {
                reveal(Seq::filter);
                assert(items.take(i + 1).drop_last() =~= items.take(i as int));
            }
            if pick(row) {
                let copy = row.copy_row();
                picked.push(copy);
                assert(picked.deep_view() =~= before.push(row.deep_view()));
            }
            i += 1;
        }
        proof {
            assert(items.take(i as int) =~= items);
            lemma_ordering_filter(items, self@, |row: T::V| T::row_key(row), p);
        }
        picked
    }

    /// Keeps the rows for which `keep` holds.
    pub fn retain<F: Fn(&T) -> bool>(&mut self, keep: F, Ghost(p): Ghost<spec_fn(T::V) -> bool>)
        requires
            forall|row: &T| #[trigger] keep.requires((row,)),
            forall|row: &T, r: bool| #[trigger]
                keep.ensures((row,), r) ==> r == p(row.deep_view()),
        ensures
            final(self)@ == old(self)@.filter(p),
    {
        let ghost old_view = self@;
        let mut kept: RowSet<T> = RowSet::new();
        let total = self.len();
        let ghost items = self.items();
        let mut i: usize = 0;
        assert(kept@ =~= old_view.filter(p).filter(|x: T::V| items.take(0).contains(x)));
        while i < total
            invariant
                i <= total,
                total == items.len(),
                items == self.items(),
                old_view == self@,
                forall|x: T::V| #[trigger] self@.contains(x) <==> items.contains(x),
                forall|row: &T| #[trigger] keep.requires((row,)),
                forall|row: &T, r: bool| #[trigger]
                    keep.ensures((row,), r) ==> r == p(row.deep_view()),
                kept@ == old_view.filter(p).filter(|x: T::V| items.take(i as int).contains(x)),
            decreases total - i,
        {
            let row = self.row_at(i);
            let ghost x = row.deep_view();
            if keep(row) {
                kept.insert(row.copy_row());
            }
            proof {
                let now = old_view.filter(p).filter(|y: T::V| items.take(i + 1).contains(y));
                assert forall|y: T::V| #[trigger] items.take(i + 1).contains(y) <==> items.take(
                    i as int,
                ).contains(y) || y == x by {
                    lemma_take_contains(items, i as int, y);
                }
                assert(kept@ =~= now);
            }
            i += 1;
        }
        assert(items.take(i as int) =~= items);
        assert(kept@ =~= old_view.filter(p));
        *self = kept;
    }

    /// Puts what `make` gives for each row into the set.
    pub fn extend<F: Fn(&T) -> Option<T>>(
        &mut self,
        make: F,
        Ghost(g): Ghost<spec_fn(T::V) -> Option<T::V>>,
    )
        requires
            forall|row: &T| #[trigger] make.requires((row,)),
            forall|row: &T, r: Option<T>| #[trigger]
                make.ensures((row,), r) ==> r.deep_view() == g(row.deep_view()),
        ensures
            final(self)@ == old(self)@.union(made_from(old(self)@, g)),
    {
        let ghost old_view = self@;
        let mut made: Vec<T> = Vec::new();
        let total = self.len();
        let ghost items = self.items();
        let mut i: usize = 0;
        while i < total
            invariant
                i <= total,
                total == items.len(),
                items == self.items(),
                old_view == self@,
                forall|x: T::V| #[trigger] self@.contains(x) <==> items.contains(x),
                forall|row: &T| #[trigger] make.requires((row,)),
                forall|row: &T, r: Option<T>| #[trigger]
                    make.ensures((row,), r) ==> r.deep_view() == g(row.deep_view()),
                forall|y: T::V|
                    #![trigger made.deep_view().contains(y)]
                    made.deep_view().contains(y) <==> exists|j: int|
                        0 <= j < i && g(#[trigger] items[j]) == Some(y),
            decreases total - i,
        {
            let ghost before = made.deep_view();
            let row = self.row_at(i);
            let new = make(row);
            let ghost result = new.deep_view();
            assert(result == g(items[i as int]));
            if let Some(new) = new {
                let ghost z = new.deep_view();
                made.push(new);
                assert(made.deep_view() =~= before.push(z));
                assert forall|y: T::V| made.deep_view().contains(y) <==> before.contains(y) || y
                    == z by {
                    lemma_push_contains(before, z, y);
                }
            }
            proof {
                assert forall|y: T::V|
                    #![trigger made.deep_view().contains(y)]
                    made.deep_view().contains(y) <==> exists|j: int|
                        0 <= j < i + 1 && g(#[trigger] items[j]) == Some(y) by {
                    if exists|j: int| 0 <= j < i + 1 && g(#[trigger] items[j]) == Some(y) {
                        let j = choose|j: int|
                            0 <= j < i + 1 && g(#[trigger] items[j]) == Some(y);
                        if j < i {
                            assert(before.contains(y));
                        }
                    }
                    if before.contains(y) {
                        let j = choose|j: int| 0 <= j < i && g(#[trigger] items[j]) == Some(y);
                        assert(g(items[j]) == Some(y));
                    }
                }
            }
            i += 1;
        }
        let ghost all_made = made.deep_view();
        assert forall|y: T::V| all_made.contains(y) <==> made_from(old_view, g).contains(y) by {
            if all_made.contains(y) {
                let j = choose|j: int| 0 <= j < i && g(#[trigger] items[j]) == Some(y);
                assert(items.contains(items[j]));
                assert(old_view.contains(items[j]));
            }
            if made_from(old_view, g).contains(y) {
                let x = choose|x: T::V| #[trigger] old_view.contains(x) && g(x) == Some(y);
                assert(items.contains(x));
                let j = choose|j: int| 0 <= j < items.len() && items[j] == x;
                assert(g(items[j]) == Some(y));
            }
        }
        let mut left: usize = made.len();
        assert(all_made.skip(left as int) =~= Seq::empty());
        while 0 < left
            invariant
                left == made@.len(),
                left <= all_made.len(),
                made.deep_view() == all_made.take(left as int),
                forall|y: T::V| #[trigger]
                    self@.contains(y) <==> old_view.contains(y) || all_made.skip(
                        left as int,
                    ).contains(y),
            decreases left,
        {
            assert(made.deep_view()[left - 1] == made@[left - 1].deep_view());
            match made.pop() {
                Some(row) => {
                    let ghost z = row.deep_view();
                    assert(z == all_made[left - 1]);
                    self.insert(row);
                    proof {
                        assert(made.deep_view() =~= all_made.take(left - 1));
                        assert(all_made.skip(left - 1) =~= seq![z] + all_made.skip(left as int));
                        assert forall|y: T::V| #[trigger] self@.contains(y) <==> old_view.contains(
                            y,
                        ) || all_made.skip(left - 1).contains(y) by {
                            lemma_first_contains(z, all_made.skip(left as int), y);
                        }
                    }
                },
                None => {},
            }
            left -= 1;
        }
        proof {
            assert(all_made.skip(0) =~= all_made);
            assert(self@ =~= old_view.union(made_from(old_view, g)));
        }
    }
}

/// What `g` gives for the rows of `s`.
pub open spec fn made_from<V>(s: Set<V>, g: spec_fn(V) -> Option<V>) -> Set<V> {
    Set::new(|y: V| exists|x: V| #[trigger] s.contains(x) && g(x) == Some(y))
}

/// One element more of a prefix.
pub proof fn lemma_take_contains<V>(s: Seq<V>, i: int, y: V)
    requires
        0 <= i < s.len(),
    ensures
        s.take(i + 1).contains(y) <==> s.take(i).contains(y) || y == s[i],
{
    assert(s.take(i + 1) =~= s.take(i).push(s[i]));
    lemma_push_contains(s.take(i), s[i], y);
}

/// The elements of a sequence with one element more at its end.
pub proof fn lemma_push_contains<V>(s: Seq<V>, x: V, y: V)
    ensures
        s.push(x).contains(y) <==> s.contains(y) || y == x,
{
    if s.contains(y) {
        let i = choose|i: int| 0 <= i < s.len() && s[i] == y;
        assert(s.push(x)[i] == y);
    }
    assert(s.push(x)[s.len() as int] == x);
    if s.push(x).contains(y) && y != x {
        let i = choose|i: int| 0 <= i < s.push(x).len() && s.push(x)[i] == y;
        assert(s[i] == y);
    }
}

proof fn lemma_first_contains<V>(x: V, s: Seq<V>, y: V)
    ensures
        (seq![x] + s).contains(y) <==> y == x || s.contains(y),
{
    let all = seq![x] + s;
    assert(all[0] == x);
    if s.contains(y) {
        let i = choose|i: int| 0 <= i < s.len() && s[i] == y;
        assert(all[i + 1] == y);
    }
    if all.contains(y) && y != x {
        let i = choose|i: int| 0 <= i < all.len() && all[i] == y;
        assert(s[i - 1] == y);
    }
}

} // verus!
