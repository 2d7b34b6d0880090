//! Tables of rows found by a unique key.

use crate::calendar::UtcDay;
use crate::text;
use vstd::prelude::*;

verus! {

/// The row at `i` has the key.
pub open spec fn row_at<K, R>(rows: Seq<(K, R)>, key: K, i: int) -> bool {
    0 <= i < rows.len() && rows[i].0 == key
}

/// Whether some row has the key.
pub open spec fn has_key<K, R>(rows: Seq<(K, R)>, key: K) -> bool {
    exists|i: int| row_at(rows, key, i)
}

/// The row of a key.
pub open spec fn row_of<K, R>(rows: Seq<(K, R)>, key: K) -> Option<R> {
    if has_key(rows, key) {
        Some(rows[choose|i: int| row_at(rows, key, i)].1)
    } else {
        None
    }
}

/// The rows with the row of `key` set to `row`: in place where the key is there, else at the end.
pub open spec fn with_row<K, R>(rows: Seq<(K, R)>, key: K, row: R) -> Seq<(K, R)> {
    if has_key(rows, key) {
        rows.update(choose|i: int| row_at(rows, key, i), (key, row))
    } else {
        rows.push((key, row))
    }
}

/// No key occurs twice.
pub open spec fn keys_unique<K, R>(rows: Seq<(K, R)>) -> bool {
    forall|i: int, j: int|
        0 <= i < rows.len() && 0 <= j < rows.len() && #[trigger] rows[i].0 == #[trigger] rows[j].0
            ==> i == j
}

/// Setting a row keeps the keys unique, makes it the row of its key, leaves the row of every
/// other key as it was, and adds one row exactly where the key is new.
pub proof fn law_with_row<K, R>(rows: Seq<(K, R)>, key: K, row: R)
    requires
        keys_unique(rows),
    ensures
        keys_unique(with_row(rows, key, row)),
        row_of(with_row(rows, key, row), key) == Some(row),
        forall|other: K|
            other != key ==> #[trigger] row_of(with_row(rows, key, row), other) == row_of(
                rows,
                other,
            ),
        with_row(rows, key, row).len() == rows.len() + if has_key(rows, key) {
            0int
        } else {
            1
        },
{
    let after = with_row(rows, key, row);
    if has_key(rows, key) {
        let p = choose|i: int| row_at(rows, key, i);
        assert(row_at(after, key, p));
    } else {
        assert(row_at(after, key, rows.len() as int));
        assert forall|i: int| 0 <= i < rows.len() implies (#[trigger] rows[i]).0 != key by {
            assert(!row_at(rows, key, i));
        }
    }
    assert forall|other: K| other != key implies #[trigger] row_of(after, other) == row_of(
        rows,
        other,
    ) by {
        assert forall|i: int| row_at(after, other, i) == row_at(rows, other, i) by {}
        if has_key(rows, other) {
            let i = choose|i: int| row_at(rows, other, i);
            assert(row_at(after, other, i));
            let j = choose|i: int| row_at(after, other, i);
            assert(row_at(rows, other, j));
        } else if has_key(after, other) {
            let j = choose|i: int| row_at(after, other, i);
            assert(row_at(rows, other, j));
        }
    }
}

/// Setting the same row twice is the same as setting it once.
pub proof fn law_with_row_twice<K, R>(rows: Seq<(K, R)>, key: K, row: R)
    requires
        keys_unique(rows),
    ensures
        with_row(with_row(rows, key, row), key, row) == with_row(rows, key, row),
{
    law_with_row(rows, key, row);
    let after = with_row(rows, key, row);
    let p = choose|i: int| row_at(after, key, i);
    assert(has_key(after, key));
    assert(row_at(after, key, p));
    if has_key(rows, key) {
        let q = choose|i: int| row_at(rows, key, i);
        assert(row_at(after, key, q));
        assert(p == q);
    } else {
        assert(row_at(after, key, rows.len() as int));
        assert(p == rows.len());
    }
    assert(after.update(p, (key, row)) =~= after);
}

/// Setting a row brings in no key but its own.
pub proof fn lemma_with_row_keys<K, R>(rows: Seq<(K, R)>, key: K, row: R)
    ensures
        forall|i: int|
            0 <= i < with_row(rows, key, row).len() ==> (#[trigger] with_row(rows, key, row)[i]).0
                == key || (i < rows.len() && with_row(rows, key, row)[i] == rows[i]),
{
    if has_key(rows, key) {
        let p = choose|i: int| row_at(rows, key, i);
        assert(row_at(rows, key, p));
    }
}

/// The position of a key is the only one.
pub proof fn lemma_row_found<K, R>(rows: Seq<(K, R)>, key: K, i: int)
    requires
        keys_unique(rows),
        row_at(rows, key, i),
    ensures
        has_key(rows, key),
        (choose|j: int| row_at(rows, key, j)) == i,
        row_of(rows, key) == Some(rows[i].1),
        forall|row: R| #[trigger] with_row(rows, key, row) == rows.update(i, (key, row)),
{
    let j = choose|j: int| row_at(rows, key, j);
    assert(row_at(rows, key, j));
}

/// The rows with further rows set one after the other.
pub open spec fn with_rows<K, R>(rows: Seq<(K, R)>, more: Seq<(K, R)>) -> Seq<(K, R)>
    decreases more.len(),
{
    if more.len() == 0 {
        rows
    } else {
        with_row(with_rows(rows, more.drop_last()), more.last().0, more.last().1)
    }
}

/// The last of several rows with a key.
pub open spec fn last_row<K, R>(more: Seq<(K, R)>, key: K) -> Option<R>
    decreases more.len(),
{
    if more.len() == 0 {
        None
    } else if more.last().0 == key {
        Some(more.last().1)
    } else {
        last_row(more.drop_last(), key)
    }
}

/// After several rows were set, the row of a key is the last one set for it, else the one that
/// was there.
pub proof fn law_with_rows<K, R>(rows: Seq<(K, R)>, more: Seq<(K, R)>)
    requires
        keys_unique(rows),
    ensures
        keys_unique(with_rows(rows, more)),
        forall|k: K| #[trigger]
            row_of(with_rows(rows, more), k) == match last_row(more, k) {
                Some(r) => Some(r),
                None => row_of(rows, k),
            },
    decreases more.len(),
{
    if more.len() > 0 {
        law_with_rows(rows, more.drop_last());
        law_with_row(with_rows(rows, more.drop_last()), more.last().0, more.last().1);
    }
}

/// A key that is set has a last row.
pub proof fn lemma_last_row<K, R>(more: Seq<(K, R)>, i: int)
    requires
        0 <= i < more.len(),
    ensures
        last_row(more, more[i].0) is Some,
    decreases more.len(),
{
    if more.last().0 != more[i].0 {
        lemma_last_row(more.drop_last(), i);
    }
}

/// Setting rows of known keys keeps the keys where they stand.
pub proof fn lemma_with_known_rows<K, R>(rows: Seq<(K, R)>, more: Seq<(K, R)>)
    requires
        keys_unique(rows),
        forall|i: int| 0 <= i < more.len() ==> has_key(rows, (#[trigger] more[i]).0),
    ensures
        with_rows(rows, more).len() == rows.len(),
        forall|i: int| 0 <= i < rows.len() ==> (#[trigger] with_rows(rows, more)[i]).0 == rows[i].0,
    decreases more.len(),
{
    if more.len() > 0 {
        let front = more.drop_last();
        assert forall|i: int| 0 <= i < front.len() implies has_key(rows, (#[trigger] front[i]).0) by {
            assert(front[i] == more[i]);
        }
        lemma_with_known_rows(rows, front);
        law_with_rows(rows, front);
        let mid = with_rows(rows, front);
        let key = more[more.len() - 1].0;
        assert(has_key(rows, key));
        let p = choose|p: int| row_at(rows, key, p);
        assert(row_at(mid, key, p));
        lemma_row_found(mid, key, p);
    }
}

/// Setting the same rows twice is the same as setting them once.
pub proof fn law_with_rows_twice<K, R>(rows: Seq<(K, R)>, more: Seq<(K, R)>)
    requires
        keys_unique(rows),
    ensures
        with_rows(with_rows(rows, more), more) == with_rows(rows, more),
{
    let once = with_rows(rows, more);
    let twice = with_rows(once, more);
    law_with_rows(rows, more);
    law_with_rows(once, more);
    assert forall|i: int| 0 <= i < more.len() implies has_key(once, (#[trigger] more[i]).0) by {
        lemma_last_row(more, i);
        assert(row_of(once, more[i].0) is Some);
    }
    lemma_with_known_rows(once, more);
    assert forall|i: int| 0 <= i < once.len() implies twice[i] == once[i] by {
        let key = once[i].0;
        assert(twice[i].0 == key);
        assert(row_at(once, key, i));
        assert(row_at(twice, key, i));
        lemma_row_found(once, key, i);
        lemma_row_found(twice, key, i);
        assert(row_of(twice, key) == row_of(once, key));
    }
    assert(twice =~= once);
}

/// A key by which rows are found.
pub trait Key: View + Sized {
    /// Whether two keys are the same.
    fn same(&self, other: &Self) -> (r: bool)
        ensures
            r == (self@ == other@),
    ;
}

impl Key for String {
    fn same(&self, other: &Self) -> (r: bool) {
        text::same_text(self.as_str(), other.as_str())
    }
}

impl View for UtcDay {
    type V = UtcDay;

    open spec fn view(&self) -> UtcDay {
        *self
    }
}

impl Key for UtcDay {
    fn same(&self, other: &Self) -> (r: bool) {
        *self == *other
    }
}

impl Key for (String, String) {
    fn same(&self, other: &Self) -> (r: bool) {
        text::same_text(self.0.as_str(), other.0.as_str()) && text::same_text(
            self.1.as_str(),
            other.1.as_str(),
        )
    }
}

impl Key for (String, UtcDay) {
    fn same(&self, other: &Self) -> (r: bool) {
        text::same_text(self.0.as_str(), other.0.as_str()) && self.1 == other.1
    }
}

impl Key for (String, i64) {
    fn same(&self, other: &Self) -> (r: bool) {
        text::same_text(self.0.as_str(), other.0.as_str()) && self.1 == other.1
    }
}

impl Key for (UtcDay, u32) {
    fn same(&self, other: &Self) -> (r: bool) {
        self.0 == other.0 && self.1 == other.1
    }
}

/// Rows with unique keys, in the order in which the keys came.
pub struct Table<K: Key, R: View> {
    rows: Vec<(K, R)>,
}

pub open spec fn row_views<K: Key, R: View>(rows: Seq<(K, R)>) -> Seq<(K::V, R::V)> {
    Seq::new(rows.len(), |i: int| (rows[i].0@, rows[i].1@))
}

impl<K: Key, R: View> View for Table<K, R> {
    type V = Seq<(K::V, R::V)>;

    closed spec fn view(&self) -> Seq<(K::V, R::V)> {
        row_views(self.rows@)
    }
}

impl<K: Key, R: View> Table<K, R> {
    /// No key occurs twice.
    pub open spec fn wf(&self) -> bool {
        keys_unique(self@)
    }

    pub fn new() -> (r: Self)
        ensures
            r.wf(),
            r@ == Seq::<(K::V, R::V)>::empty(),
    {
        let r = Table { rows: Vec::new() };
        proof {
            assert(r@ =~= Seq::<(K::V, R::V)>::empty());
        }
        r
    }

    pub fn len(&self) -> (n: usize)
        ensures
            n == self@.len(),
    {
        self.rows.len()
    }

    /// The key of the row at a position.
    pub fn key(&self, i: usize) -> (k: &K)
        requires
            i < self@.len(),
        ensures
            k@ == self@[i as int].0,
    {
        &self.rows[i].0
    }

    /// The row at a position.
    pub fn row(&self, i: usize) -> (r: &R)
        requires
            i < self@.len(),
        ensures
            r@ == self@[i as int].1,
    {
        &self.rows[i].1
    }

    /// The position of a key.
    pub fn position(&self, key: &K) -> (p: Option<usize>)
        ensures
            p is Some <==> has_key(self@, key@),
            p matches Some(i) ==> row_at(self@, key@, i as int),
    {
        let mut i: usize = 0;
        while i < self.rows.len()
            invariant
                0 <= i <= self.rows@.len(),
                forall|j: int| 0 <= j < i ==> !#[trigger] row_at(self@, key@, j),
            decreases self.rows@.len() - i,
        {
            if self.rows[i].0.same(key) {
                proof {
                    assert(row_at(self@, key@, i as int));
                }
                return Some(i);
            }
            i += 1;
        }
        None
    }

    /// The row of a key.
    pub fn get(&self, key: &K) -> (r: Option<&R>)
        requires
            self.wf(),
        ensures
            r is Some <==> row_of(self@, key@) is Some,
            r matches Some(row) ==> row_of(self@, key@) == Some(row@),
    {
        match self.position(key) {
            Some(i) => {
                proof {
                    lemma_row_found(self@, key@, i as int);
                }
                Some(&self.rows[i].1)
            },
            None => None,
        }
    }

    /// Sets the row of a key.
    pub fn put(&mut self, key: K, row: R)
        requires
            old(self).wf(),
        ensures
            final(self).wf(),
            final(self)@ == with_row(old(self)@, key@, row@),
    {
        let ghost before = self@;
        proof {
            law_with_row(before, key@, row@);
        }
        match self.position(&key) {
            Some(i) => {
                proof {
                    lemma_row_found(before, key@, i as int);
                }
                let ghost k = key@;
                let ghost v = row@;
                self.rows.set(i, (key, row));
                proof {
                    assert(self@ =~= before.update(i as int, (k, v)));
                }
            },
            None => {
                let ghost k = key@;
                let ghost v = row@;
                self.rows.push((key, row));
                proof {
                    assert(self@ =~= before.push((k, v)));
                }
            },
        }
    }
}

} // verus!
