//! The record store: the list of accepted expenses, each under an identity
//! that the store hands out once and never again.

use crate::amount::Decimal;
use crate::date::{in_month, MonthRange};
use crate::expense::{views, Expense, ExpenseView, ValidationError};
use crate::text::str_eq;
use vstd::prelude::*;

verus! {

/// Why the store refused a record.
#[derive(Clone, Copy, PartialEq, Eq, Debug, Structural)]
pub enum StoreError {
    /// The record is not valid.
    Validation(ValidationError),
    /// Every identity has been handed out.
    Full,
}

impl StoreError {
    /// The message shown to the user.
    pub fn message(&self) -> (s: String)
        ensures
            s@ == (match *self {
                StoreError::Validation(_) => "Amount must be positive"@,
                StoreError::Full => "The store has no identity left for a new record"@,
            }),
    {
        match self {
            StoreError::Validation(e) => e.message(),
            StoreError::Full => "The store has no identity left for a new record".to_owned(),
        }
    }
}

/// What reading a snapshot file gave.
pub enum Snapshot {
    /// There is no such file.
    Missing,
    /// The file does not hold a list of records.
    Malformed,
    /// The records that the file holds, in its order.
    Records(Vec<Expense>),
}

/// Why a snapshot was not loaded.
#[derive(Clone, Copy, PartialEq, Eq, Debug, Structural)]
pub enum LoadError {
    /// The file does not hold a list of records.
    MalformedSnapshot,
    /// The store refused the records.
    Store(StoreError),
}

impl LoadError {
    /// The message shown to the user.
    pub fn message(&self) -> (s: String)
        ensures
            s@ == (match *self {
                LoadError::MalformedSnapshot => "The snapshot file is malformed"@,
                LoadError::Store(StoreError::Validation(_)) => "Amount must be positive"@,
                LoadError::Store(StoreError::Full) =>
                    "The store has no identity left for a new record"@,
            }),
    {
        match self {
            LoadError::MalformedSnapshot => "The snapshot file is malformed".to_owned(),
            LoadError::Store(e) => e.message(),
        }
    }
}

/// The records with another identity than the given one.
pub open spec fn not_id(id: i64) -> spec_fn(ExpenseView) -> bool {
    |e: ExpenseView| e.id != Some(id)
}

/// The records of the given category.
pub open spec fn category_is(category: Seq<char>) -> spec_fn(ExpenseView) -> bool {
    |e: ExpenseView| e.category == category
}

/// The records dated in the given month.
pub open spec fn dated_in(year: int, month: int) -> spec_fn(ExpenseView) -> bool {
    |e: ExpenseView| in_month(e.date, year, month)
}

/// The store as mathematics sees it: its rows in the order they were
/// accepted, and the last identity it has handed out.
pub struct Table {
    pub rows: Seq<ExpenseView>,
    pub last_id: int,
}

impl Table {
    /// What holds of every store: identities are positive, grow along the
    /// rows and never exceed the last one handed out, and no amount is below
    /// zero.
    pub open spec fn wf(self) -> bool {
        &&& 0 <= self.last_id <= i64::MAX
        &&& forall|i: int|
            0 <= i < self.rows.len() ==> (#[trigger] self.rows[i]).id is Some && 1
                <= self.rows[i].id->0 <= self.last_id && self.rows[i].valid()
        &&& forall|i: int, j: int|
            0 <= i < j < self.rows.len() ==> (#[trigger] self.rows[i]).id->0 < (
            #[trigger] self.rows[j]).id->0
    }

    /// The store that has never held a record.
    pub open spec fn empty() -> Table {
        Table { rows: Seq::empty(), last_id: 0 }
    }

    /// Whether the store holds a record under `id`.
    pub open spec fn has(self, id: i64) -> bool {
        exists|i: int| 0 <= i < self.rows.len() && (#[trigger] self.rows[i]).id == Some(id)
    }

    /// The place of a row held under `id`.
    pub open spec fn position(self, id: i64) -> int {
        choose|i: int| 0 <= i < self.rows.len() && (#[trigger] self.rows[i]).id == Some(id)
    }

    /// The record held under `id`, if there is one.
    pub open spec fn get(self, id: i64) -> Option<ExpenseView> {
        if self.has(id) {
            Some(self.rows[self.position(id)])
        } else {
            None
        }
    }

    /// Why `insert` would refuse the record, if it would.
    pub open spec fn insert_error(self, e: ExpenseView) -> Option<StoreError> {
        if !e.valid() {
            Some(StoreError::Validation(ValidationError::NegativeAmount))
        } else if self.last_id >= i64::MAX {
            Some(StoreError::Full)
        } else {
            None
        }
    }

    /// The store after it has accepted `e` under the next identity.
    pub open spec fn insert(self, e: ExpenseView) -> Table {
        Table {
            rows: self.rows.push(e.with_id(Some((self.last_id + 1) as i64))),
            last_id: self.last_id + 1,
        }
    }

    /// The store after the record held under the identity of `e`, if any,
    /// has been replaced by `e`.
    pub open spec fn update(self, e: ExpenseView) -> Table {
        Table {
            rows: self.rows.map_values(
                |row: ExpenseView|
                    if row.id == e.id {
                        e
                    } else {
                        row
                    },
            ),
            last_id: self.last_id,
        }
    }

    /// The store without the record held under `id`.
    pub open spec fn delete(self, id: i64) -> Table {
        Table { rows: self.rows.filter(not_id(id)), last_id: self.last_id }
    }

    /// The store without any record. It still knows the last identity.
    pub open spec fn clear(self) -> Table {
        Table { rows: Seq::empty(), last_id: self.last_id }
    }

    /// Why `import` would refuse the records, if it would.
    pub open spec fn import_error(self, records: Seq<ExpenseView>) -> Option<StoreError> {
        if exists|i: int| 0 <= i < records.len() && !(#[trigger] records[i]).valid() {
            Some(StoreError::Validation(ValidationError::NegativeAmount))
        } else if self.last_id + records.len() > i64::MAX {
            Some(StoreError::Full)
        } else {
            None
        }
    }

    /// Why `load` would fail on what a snapshot file gave, if it would. A
    /// missing file is no failure.
    pub open spec fn load_error(self, snapshot: Snapshot) -> Option<LoadError> {
        match snapshot {
            Snapshot::Missing => None,
            Snapshot::Malformed => Some(LoadError::MalformedSnapshot),
            Snapshot::Records(records) => match self.import_error(views(records@)) {
                Some(e) => Some(LoadError::Store(e)),
                None => None,
            },
        }
    }

    /// The store after a snapshot was loaded: with the records of the file
    /// imported, and unchanged where the file is missing.
    pub open spec fn load(self, snapshot: Snapshot) -> Table {
        match snapshot {
            Snapshot::Records(records) => self.import(views(records@)),
            _ => self,
        }
    }

    /// The store after it has accepted each of `records` in turn.
    pub open spec fn import(self, records: Seq<ExpenseView>) -> Table
        decreases records.len(),
    {
        if records.len() == 0 {
            self
        } else {
            self.import(records.drop_last()).insert(records.last())
        }
    }
}

/// The record store.
pub struct Database {
    rows: Vec<Expense>,
    last_id: i64,
}

impl View for Database {
    type V = Table;

    closed spec fn view(&self) -> Table {
        Table { rows: views(self.rows@), last_id: self.last_id as int }
    }
}

impl Database {
    #[verifier::type_invariant]
    spec fn well_formed(self) -> bool {
        self@.wf()
    }

    /// An empty store.
    pub fn new() -> (db: Database)
        ensures
            db@ == Table::empty(),
    {
        let db = Database { rows: Vec::new(), last_id: 0 };
        assert(views(db.rows@) =~= Seq::empty());
        db
    }

    /// An empty store that has handed out the identities up to `last_id`,
    /// as a store does that was cleared; `None` where `last_id` is below 0.
    pub fn with_last_id(last_id: i64) -> (r: Option<Database>)
        ensures
            match r {
                Some(db) => last_id >= 0 && db@ == (Table {
                    rows: Seq::empty(),
                    last_id: last_id as int,
                }),
                None => last_id < 0,
            },
    {
        if last_id < 0 {
            return None;
        }
        let db = Database { rows: Vec::new(), last_id };
        assert(views(db.rows@) =~= Seq::empty());
        Some(db)
    }

    /// The last identity handed out; 0 where none was.
    pub fn last_id(&self) -> (r: i64)
        ensures
            r == self@.last_id,
            self@.wf(),
    {
        proof {
            use_type_invariant(self);
        }
        self.last_id
    }

    /// Every store is well formed; a call tells the verifier so.
    pub(crate) fn check_wf(&self)
        ensures
            self@.wf(),
    {
        proof {
            use_type_invariant(self);
        }
    }

    /// The number of records held.
    pub fn len(&self) -> (n: usize)
        ensures
            n == self@.rows.len(),
            self@.wf(),
    {
        proof {
            use_type_invariant(self);
        }
        self.rows.len()
    }

    /// Accepts a copy of `expense` under a new identity, which is returned:
    /// one more than the last identity handed out. The `id` of `expense` is
    /// not read. Refuses a negative amount, and refuses when every identity
    /// has been handed out; the store is unchanged by a refusal.
    pub fn insert_expense(&mut self, expense: &Expense) -> (r: Result<i64, StoreError>)
        ensures
            final(self)@.wf(),
            match r {
                Ok(id) => old(self)@.insert_error(expense@).is_none() && id == old(self)@.last_id
                    + 1 && final(self)@ == old(self)@.insert(expense@),
                Err(e) => old(self)@.insert_error(expense@) == Some(e) && final(self)@ == old(
                    self,
                )@,
            },
    {
        proof {
            use_type_invariant(&*self);
        }
        if !expense.is_valid() {
            return Err(StoreError::Validation(ValidationError::NegativeAmount));
        }
        if self.last_id == i64::MAX {
            return Err(StoreError::Full);
        }
        let id: i64 = self.last_id + 1;
        let mut row = expense.clone();
        row.id = Some(id);
        let mut rows = self.take_rows();
        let ghost before = rows@;
        rows.push(row);
        proof {
            assert(views(rows@) =~= views(before).push(expense@.with_id(Some(id))));
        }
        self.last_id = id;
        self.rows = rows;
        Ok(id)
    }

    /// A copy of the record held under `id`, or `None` where there is none.
    pub fn get_expense(&self, id: i64) -> (r: Option<Expense>)
        ensures
            match r {
                Some(e) => self@.get(id) == Some(e@),
                None => self@.get(id).is_none(),
            },
    {
        proof {
            use_type_invariant(self);
        }
        match self.find(id) {
            Some(i) => Some(self.rows[i].clone()),
            None => None,
        }
    }

    /// Moves the rows out and leaves none behind.
    fn take_rows(&mut self) -> (rows: Vec<Expense>)
        ensures
            rows == old(self).rows,
            final(self).rows@.len() == 0,
            final(self).last_id == old(self).last_id,
    {
        let mut rows: Vec<Expense> = Vec::new();
        proof {
            use_type_invariant(&*self);
            assert(views(rows@) =~= Seq::empty());
        }
        core::mem::swap(&mut self.rows, &mut rows);
        rows
    }

    /// The place of the row held under `id`.
    fn find(&self, id: i64) -> (r: Option<usize>)
        ensures
            match r {
                Some(i) => self@.has(id) && i == self@.position(id) && i < self@.rows.len(),
                None => !self@.has(id),
            },
    {
        proof {
            use_type_invariant(self);
        }
        let mut i: usize = 0;
        while i < self.rows.len()
            invariant
                i <= self.rows.len(),
                self@.wf(),
                forall|j: int| 0 <= j < i ==> (#[trigger] self@.rows[j]).id != Some(id),
            decreases self.rows.len() - i,
        {
            let same = match self.rows[i].id {
                Some(k) => k == id,
                None => false,
            };
            if same {
                proof {
                    assert(self@.rows[i as int].id == Some(id));
                    lemma_position(self@, id, i as int);
                }
                return Some(i);
            }
            i += 1;
        }
        None
    }

    /// Replaces the record held under the identity of `expense` by a copy of
    /// `expense`, and says whether there was such a record. Refuses a
    /// negative amount; the store is unchanged by a refusal, and where
    /// `expense` has no identity or the store holds none under it.
    pub fn update_expense(&mut self, expense: &Expense) -> (r: Result<bool, StoreError>)
        ensures
            final(self)@.wf(),
            match r {
                Ok(found) => expense@.valid() && final(self)@ == old(self)@.update(expense@)
                    && found == (expense@.id is Some && old(self)@.has(expense@.id->0)),
                Err(e) => !expense@.valid() && e == StoreError::Validation(
                    ValidationError::NegativeAmount,
                ) && final(self)@ == old(self)@,
            },
    {
        proof {
            use_type_invariant(&*self);
        }
        if !expense.is_valid() {
            return Err(StoreError::Validation(ValidationError::NegativeAmount));
        }
        let found = match expense.id {
            Some(id) => self.find(id),
            None => None,
        };
        match found {
            Some(i) => {
                let ghost before = self@;
                let row = expense.clone();
                let mut rows = self.take_rows();
                rows.set(i, row);
                proof {
                    lemma_update_found(before, expense@, i as int);
                    assert(views(rows@) =~= before.rows.update(i as int, expense@));
                }
                self.rows = rows;
                Ok(true)
            },
            None => {
                proof {
                    lemma_update_absent(self@, expense@);
                }
                Ok(false)
            },
        }
    }

    /// Removes the record held under `id`, and says whether there was one.
    pub fn delete_expense(&mut self, id: i64) -> (found: bool)
        ensures
            final(self)@.wf(),
            found == old(self)@.has(id),
            final(self)@ == old(self)@.delete(id),
    {
        proof {
            use_type_invariant(&*self);
        }
        match self.find(id) {
            Some(i) => {
                let ghost before = self@;
                let mut rows = self.take_rows();
                rows.remove(i);
                proof {
                    lemma_delete_found(before, id, i as int);
                    assert(views(rows@) =~= before.rows.remove(i as int));
                }
                self.rows = rows;
                true
            },
            None => {
                proof {
                    lemma_delete_absent(self@, id);
                }
                false
            },
        }
    }

    /// Removes every record. Identities handed out before stay used.
    pub fn clear_expenses(&mut self)
        ensures
            final(self)@.wf(),
            final(self)@ == old(self)@.clear(),
    {
        proof {
            use_type_invariant(&*self);
        }
        self.rows = Vec::new();
        assert(views(self.rows@) =~= Seq::empty());
    }

    /// Copies of all records, in the order they were accepted.
    pub fn list_expenses(&self) -> (r: Vec<Expense>)
        ensures
            views(r@) == self@.rows,
    {
        let mut out: Vec<Expense> = Vec::new();
        let mut i: usize = 0;
        while i < self.rows.len()
            invariant
                i <= self.rows.len(),
                views(out@) == views(self.rows@).take(i as int),
            decreases self.rows.len() - i,
        {
            let ghost before = out@;
            out.push(self.rows[i].clone());
            i += 1;
            proof {
                assert(views(out@) =~= views(before).push(self.rows@[i - 1]@));
                assert(views(self.rows@).take(i as int) =~= views(self.rows@).take(i - 1).push(
                    self.rows@[i - 1]@,
                ));
            }
        }
        assert(views(self.rows@).take(i as int) =~= views(self.rows@));
        out
    }

    /// Copies of the records whose category is `category`, in the order
    /// they were accepted.
    pub fn filter_by_category(&self, category: &str) -> (r: Vec<Expense>)
        ensures
            views(r@) == self@.rows.filter(category_is(category@)),
    {
        let ghost pred = category_is(category@);
        let ghost all = views(self.rows@);
        let mut out: Vec<Expense> = Vec::new();
        let mut i: usize = 0;
        proof {
            reveal(Seq::filter);
            assert(all.take(0).filter(pred) =~= Seq::empty());
            assert(views(out@) =~= Seq::empty());
        }
        while i < self.rows.len()
            invariant
                i <= self.rows.len(),
                all == views(self.rows@),
                pred == category_is(category@),
                views(out@) == all.take(i as int).filter(pred),
            decreases self.rows.len() - i,
        {
            proof {
                all.take(i as int).lemma_filter_push(all[i as int], pred);
                assert(all.take(i + 1) =~= all.take(i as int).push(all[i as int]));
                assert(pred(all[i as int]) == (self.rows@[i as int]@.category == category@));
            }
            if str_eq(self.rows[i].category.as_str(), category) {
                let ghost before = out@;
                out.push(self.rows[i].clone());
                assert(views(out@) =~= views(before).push(all[i as int]));
            }
            i += 1;
        }
        assert(all.take(i as int) =~= all);
        out
    }

    /// Copies of the records dated in the given month of the given year,
    /// from its first day to its true last day, in the order they were
    /// accepted. The date of a record is compared as text, so every year
    /// can be asked for. There is none where `month` is not in 1..=12.
    pub fn filter_by_month(&self, year: i32, month: u32) -> (r: Vec<Expense>)
        ensures
            views(r@) == self@.rows.filter(dated_in(year as int, month as int)),
    {
        let ghost pred = dated_in(year as int, month as int);
        let ghost all = views(self.rows@);
        let range = MonthRange::of(year, month);
        let mut out: Vec<Expense> = Vec::new();
        let mut i: usize = 0;
        proof {
            reveal(Seq::filter);
            assert(all.take(0).filter(pred) =~= Seq::empty());
            assert(views(out@) =~= Seq::empty());
        }
        while i < self.rows.len()
            invariant
                i <= self.rows.len(),
                all == views(self.rows@),
                pred == dated_in(year as int, month as int),
                views(out@) == all.take(i as int).filter(pred),
                match range {
                    Some(m) => m.year() == year && m.month() == month,
                    None => forall|date: Seq<char>| !in_month(date, year as int, month as int),
                },
            decreases self.rows.len() - i,
        {
            proof {
                all.take(i as int).lemma_filter_push(all[i as int], pred);
                assert(all.take(i + 1) =~= all.take(i as int).push(all[i as int]));
                assert(pred(all[i as int]) == in_month(
                    self.rows@[i as int]@.date,
                    year as int,
                    month as int,
                ));
            }
            let keep = match &range {
                Some(m) => m.contains(self.rows[i].date.as_str()),
                None => false,
            };
            if keep {
                let ghost before = out@;
                out.push(self.rows[i].clone());
                assert(views(out@) =~= views(before).push(all[i as int]));
            }
            i += 1;
        }
        assert(all.take(i as int) =~= all);
        out
    }

    /// Accepts a copy of each of `records` in turn, each under a new
    /// identity, and returns their number. Refuses all of them where one has
    /// a negative amount, or where the identities left do not suffice; the
    /// store is unchanged by a refusal.
    pub fn import_expenses(&mut self, records: &Vec<Expense>) -> (r: Result<usize, StoreError>)
        ensures
            final(self)@.wf(),
            match r {
                Ok(n) => old(self)@.import_error(views(records@)).is_none() && n == records.len()
                    && final(self)@ == old(self)@.import(views(records@)),
                Err(e) => old(self)@.import_error(views(records@)) == Some(e) && final(self)@
                    == old(self)@,
            },
    {
        proof {
            use_type_invariant(&*self);
        }
        let ghost all = views(records@);
        let n = records.len();
        let mut i: usize = 0;
        while i < n
            invariant
                i <= n,
                n == records.len(),
                all == views(records@),
                self@ == old(self)@,
                self@.wf(),
                forall|j: int| 0 <= j < i ==> (#[trigger] all[j]).valid(),
            decreases n - i,
        {
            if !records[i].is_valid() {
                assert(!all[i as int].valid());
                return Err(StoreError::Validation(ValidationError::NegativeAmount));
            }
            i += 1;
        }
        if n as u64 > (i64::MAX - self.last_id) as u64 {
            return Err(StoreError::Full);
        }
        let mut k: usize = 0;
        while k < n
            invariant
                k <= n,
                n == records.len(),
                all == views(records@),
                forall|j: int| 0 <= j < n ==> (#[trigger] all[j]).valid(),
                self@.wf(),
                self@ == old(self)@.import(all.take(k as int)),
                self@.last_id == old(self)@.last_id + k,
                old(self)@.last_id + n <= i64::MAX,
            decreases n - k,
        {
            proof {
                assert(all.take(k + 1).drop_last() =~= all.take(k as int));
                assert(all.take(k + 1).last() == all[k as int]);
                assert(all[k as int].valid());
            }
            let r = self.insert_expense(&records[k]);
            assert(r is Ok);
            k += 1;
        }
        assert(all.take(n as int) =~= all);
        Ok(n)
    }

    /// Loads what reading a snapshot file gave, and returns the number of
    /// records taken in. A missing file is no failure and gives none. A
    /// malformed file, or records that the store refuses, fail and leave
    /// the store as it was.
    pub fn load_expenses(&mut self, snapshot: Snapshot) -> (r: Result<usize, LoadError>)
        ensures
            final(self)@.wf(),
            match r {
                Ok(n) => old(self)@.load_error(snapshot).is_none() && final(self)@ == old(
                    self,
                )@.load(snapshot) && n == final(self)@.rows.len() - old(self)@.rows.len(),
                Err(e) => old(self)@.load_error(snapshot) == Some(e) && final(self)@ == old(
                    self,
                )@,
            },
    {
        proof {
            use_type_invariant(&*self);
        }
        match snapshot {
            Snapshot::Missing => Ok(0),
            Snapshot::Malformed => Err(LoadError::MalformedSnapshot),
            Snapshot::Records(records) => {
                proof {
                    if self@.import_error(views(records@)).is_none() {
                        lemma_import(self@, views(records@));
                    }
                }
                match self.import_expenses(&records) {
                    Ok(n) => Ok(n),
                    Err(e) => Err(LoadError::Store(e)),
                }
            },
        }
    }
}

/// In a well-formed store the row at `i` is the one held under its identity.
pub proof fn lemma_position(t: Table, id: i64, i: int)
    requires
        t.wf(),
        0 <= i < t.rows.len(),
        t.rows[i].id == Some(id),
    ensures
        t.has(id),
        t.position(id) == i,
        t.get(id) == Some(t.rows[i]),
{
    let p = t.position(id);
    if p < i {
        assert(t.rows[p].id->0 < t.rows[i].id->0);
    } else if i < p {
        assert(t.rows[i].id->0 < t.rows[p].id->0);
    }
}

/// Replacing the row at `i` is the update by a record of its identity.
pub proof fn lemma_update_found(t: Table, e: ExpenseView, i: int)
    requires
        t.wf(),
        0 <= i < t.rows.len(),
        t.rows[i].id == e.id,
        e.valid(),
    ensures
        t.update(e).rows == t.rows.update(i, e),
        t.update(e).wf(),
{
    let after = t.update(e).rows;
    assert forall|j: int| 0 <= j < t.rows.len() implies after[j] == t.rows.update(i, e)[j] by {
        if j < i {
            assert(t.rows[j].id->0 < t.rows[i].id->0);
        } else if i < j {
            assert(t.rows[i].id->0 < t.rows[j].id->0);
        }
    }
    assert(after =~= t.rows.update(i, e));
    assert forall|j: int| 0 <= j < after.len() implies (#[trigger] after[j]).id == t.rows[j].id by {}
}

/// An update by a record whose identity the store does not hold changes
/// nothing.
pub proof fn lemma_update_absent(t: Table, e: ExpenseView)
    requires
        t.wf(),
        e.id is None || !t.has(e.id->0),
    ensures
        t.update(e) == t,
{
    assert forall|j: int| 0 <= j < t.rows.len() implies t.update(e).rows[j] == t.rows[j] by {
        assert(t.rows[j].id is Some);
    }
    assert(t.update(e).rows =~= t.rows);
}

/// Deleting the identity of the row at `i` removes that row and no other.
pub proof fn lemma_delete_found(t: Table, id: i64, i: int)
    requires
        t.wf(),
        0 <= i < t.rows.len(),
        t.rows[i].id == Some(id),
    ensures
        t.delete(id).rows == t.rows.remove(i),
        t.delete(id).wf(),
    decreases t.rows.len(),
{
    reveal(Seq::filter);
    let rows = t.rows;
    let n = rows.len() as int;
    let front = Table { rows: rows.drop_last(), last_id: t.last_id };
    assert(front.wf()) by {
        assert forall|j: int| 0 <= j < front.rows.len() implies (#[trigger] front.rows[j])
            == rows[j] by {}
    }
    if i == n - 1 {
        assert(!front.has(id)) by {
            if front.has(id) {
                let p = front.position(id);
                assert(rows[p].id->0 < rows[i].id->0);
            }
        }
        lemma_delete_absent(front, id);
        assert(rows.remove(i) =~= rows.drop_last());
    } else {
        lemma_delete_found(front, id, i);
        assert(rows[i].id->0 < rows[n - 1].id->0);
        assert(rows.remove(i) =~= front.rows.remove(i).push(rows.last()));
    }
    let after = t.delete(id).rows;
    assert(after == rows.remove(i));
    assert forall|j: int| 0 <= j < after.len() implies (#[trigger] after[j]) == (if j < i {
        rows[j]
    } else {
        rows[j + 1]
    }) by {}
}

/// Deleting an identity that the store does not hold changes nothing.
pub proof fn lemma_delete_absent(t: Table, id: i64)
    requires
        !t.has(id),
    ensures
        t.delete(id) == t,
    decreases t.rows.len(),
{
    reveal(Seq::filter);
    if t.rows.len() > 0 {
        let front = Table { rows: t.rows.drop_last(), last_id: t.last_id };
        assert(!front.has(id)) by {
            if front.has(id) {
                let p = front.position(id);
                assert(t.rows[p].id == Some(id));
            }
        }
        lemma_delete_absent(front, id);
        assert(t.rows.last() == t.rows[t.rows.len() - 1]);
        assert(t.rows.drop_last().push(t.rows.last()) =~= t.rows);
    }
}

/// A record that the store accepts is held, field for field, under the
/// identity it was given; that identity is new, and above every identity
/// the store has handed out before.
pub proof fn lemma_insert_then_get(t: Table, e: ExpenseView)
    requires
        t.wf(),
        t.insert_error(e).is_none(),
    ensures
        t.insert(e).wf(),
        !t.has((t.last_id + 1) as i64),
        t.insert(e).get((t.last_id + 1) as i64) == Some(e.with_id(Some((t.last_id + 1) as i64))),
        t.insert(e).get((t.last_id + 1) as i64)->0.fields() == e.fields(),
        forall|other: i64| other != t.last_id + 1 ==> t.insert(e).get(other) == t.get(other),
{
    let id = (t.last_id + 1) as i64;
    let after = t.insert(e);
    let n = t.rows.len() as int;
    assert(after.rows[n] == e.with_id(Some(id)));
    assert(after.wf()) by {
        assert forall|i: int| 0 <= i < after.rows.len() implies (#[trigger] after.rows[i]).id
            is Some && 1 <= after.rows[i].id->0 <= after.last_id && after.rows[i].valid() by {
            if i < n {
                assert(after.rows[i] == t.rows[i]);
            }
        }
        assert forall|i: int, j: int| 0 <= i < j < after.rows.len() implies (
        #[trigger] after.rows[i]).id->0 < (#[trigger] after.rows[j]).id->0 by {
            assert(after.rows[i] == t.rows[i]);
            if j < n {
                assert(after.rows[j] == t.rows[j]);
            }
        }
    }
    if t.has(id) {
        let p = t.position(id);
        assert(t.rows[p].id->0 <= t.last_id);
    }
    lemma_position(after, id, n);
    assert forall|other: i64| other != t.last_id + 1 implies after.get(other) == t.get(other) by {
        if t.has(other) {
            let p = t.position(other);
            assert(after.rows[p] == t.rows[p]);
            lemma_position(after, other, p);
        } else if after.has(other) {
            let p = after.position(other);
            assert(after.rows[p] == t.rows[p]);
        }
    }
}

/// After an update the store holds the new record, every field of it,
/// under its identity, and every other record as before.
pub proof fn lemma_update_then_get(t: Table, e: ExpenseView)
    requires
        t.wf(),
        e.valid(),
        e.id is Some,
        t.has(e.id->0),
    ensures
        t.update(e).wf(),
        t.update(e).get(e.id->0) == Some(e),
        t.update(e).rows.len() == t.rows.len(),
        forall|other: i64| other != e.id->0 ==> t.update(e).get(other) == t.get(other),
{
    let id = e.id->0;
    let p = t.position(id);
    let after = t.update(e);
    lemma_update_found(t, e, p);
    lemma_position(after, id, p);
    assert forall|other: i64| other != id implies after.get(other) == t.get(other) by {
        if t.has(other) {
            let q = t.position(other);
            assert(after.rows[q] == t.rows[q]);
            lemma_position(after, other, q);
        } else if after.has(other) {
            let q = after.position(other);
            assert(after.rows[q] == t.rows[q]);
        }
    }
}

/// After a delete the store holds nothing under that identity. Where it
/// held a record there, it holds exactly one record fewer; every other
/// record it holds as before, and a later insert gets a new identity.
pub proof fn lemma_delete_then_get(t: Table, id: i64)
    requires
        t.wf(),
    ensures
        t.delete(id).wf(),
        t.delete(id).get(id).is_none(),
        t.has(id) ==> t.delete(id).rows.len() == t.rows.len() - 1,
        !t.has(id) ==> t.delete(id) == t,
        t.delete(id).last_id == t.last_id,
        forall|other: i64| other != id ==> t.delete(id).get(other) == t.get(other),
{
    let after = t.delete(id);
    if t.has(id) {
        let p = t.position(id);
        lemma_delete_found(t, id, p);
        assert forall|j: int| 0 <= j < after.rows.len() implies (#[trigger] after.rows[j]) == (if j
            < p {
            t.rows[j]
        } else {
            t.rows[j + 1]
        }) by {}
        if after.has(id) {
            let q = after.position(id);
            if q < p {
                assert(t.rows[q].id->0 < t.rows[p].id->0);
            } else {
                assert(t.rows[p].id->0 < t.rows[q + 1].id->0);
            }
        }
        assert forall|other: i64| other != id implies after.get(other) == t.get(other) by {
            if t.has(other) {
                let q = t.position(other);
                let q2 = if q < p {
                    q
                } else {
                    q - 1
                };
                assert(after.rows[q2] == t.rows[q]);
                lemma_position(after, other, q2);
            } else if after.has(other) {
                let q = after.position(other);
                let q0 = if q < p {
                    q
                } else {
                    q + 1
                };
                assert(t.rows[q0] == after.rows[q]);
            }
        }
    } else {
        lemma_delete_absent(t, id);
    }
}

/// An identity that was handed out is never handed out again, whether its
/// record was deleted or the store was cleared: the next identity is above
/// it.
pub proof fn lemma_identity_not_reused(t: Table, id: i64, e: ExpenseView)
    requires
        t.wf(),
        t.has(id),
    ensures
        t.delete(id).insert(e).last_id > id,
        t.delete(id).insert(e).rows.last().id == Some((t.last_id + 1) as i64),
        t.clear().insert(e).last_id > id,
        t.clear().insert(e).rows.last().id == Some((t.last_id + 1) as i64),
{
    let p = t.position(id);
    assert(t.rows[p].id->0 <= t.last_id);
}

/// What each record says, its identity left aside.
pub open spec fn contents(rows: Seq<ExpenseView>) -> Seq<(Seq<char>, Seq<char>, Seq<char>, Decimal)> {
    rows.map_values(|e: ExpenseView| e.fields())
}

/// Importing records appends them in their order, each under the next
/// identity, and leaves the rows held before as they are.
pub proof fn lemma_import(t: Table, records: Seq<ExpenseView>)
    requires
        t.wf(),
        t.import_error(records).is_none(),
    ensures
        t.import(records).wf(),
        t.import(records).last_id == t.last_id + records.len(),
        t.import(records).rows.len() == t.rows.len() + records.len(),
        forall|i: int| 0 <= i < t.rows.len() ==> (#[trigger] t.import(records).rows[i]) == t.rows[i],
        forall|i: int|
            0 <= i < records.len() ==> (#[trigger] t.import(records).rows[t.rows.len() + i])
                == records[i].with_id(Some((t.last_id + i + 1) as i64)),
        contents(t.import(records).rows) == contents(t.rows) + contents(records),
    decreases records.len(),
{
    if records.len() == 0 {
        assert(contents(t.rows) + contents(records) =~= contents(t.rows));
    } else {
        let front = records.drop_last();
        let last = records.last();
        assert forall|i: int| 0 <= i < front.len() implies (#[trigger] front[i]).valid() by {
            assert(front[i] == records[i]);
        }
        lemma_import(t, front);
        let mid = t.import(front);
        assert(last == records[records.len() - 1]);
        lemma_insert_then_get(mid, last);
        let after = t.import(records);
        assert(after == mid.insert(last));
        assert forall|i: int| 0 <= i < records.len() implies (#[trigger] after.rows[t.rows.len()
            + i]) == records[i].with_id(Some((t.last_id + i + 1) as i64)) by {
            if i < front.len() {
                assert(after.rows[t.rows.len() + i] == mid.rows[t.rows.len() + i]);
                assert(front[i] == records[i]);
            }
        }
        assert forall|i: int| 0 <= i < t.rows.len() implies (#[trigger] after.rows[i])
            == t.rows[i] by {
            assert(after.rows[i] == mid.rows[i]);
        }
        assert(contents(after.rows) =~= contents(mid.rows).push(last.fields()));
        assert(contents(records) =~= contents(front).push(last.fields()));
        assert(contents(after.rows) =~= contents(t.rows) + contents(records));
    }
}

/// Taking the list out of a store, clearing the store and importing the
/// list again gives a store that says the same as before, record for
/// record and in the same order, so with the same multiset of contents. The
/// identities are new. This needs as many unused identities as there are
/// records.
pub proof fn lemma_export_clear_import(t: Table)
    requires
        t.wf(),
        t.last_id + t.rows.len() <= i64::MAX,
    ensures
        t.clear().import_error(t.rows).is_none(),
        t.clear().import(t.rows).wf(),
        contents(t.clear().import(t.rows).rows) == contents(t.rows),
        contents(t.clear().import(t.rows).rows).to_multiset() == contents(t.rows).to_multiset(),
        forall|i: int|
            0 <= i < t.rows.len() ==> (#[trigger] t.clear().import(t.rows).rows[i]).id == Some(
                (t.last_id + i + 1) as i64,
            ),
{
    let empty = t.clear();
    assert(empty.wf());
    lemma_import(empty, t.rows);
    assert(contents(empty.rows) + contents(t.rows) =~= contents(t.rows));
    let after = empty.import(t.rows);
    assert forall|i: int| 0 <= i < t.rows.len() implies (#[trigger] after.rows[i]).id == Some(
        (t.last_id + i + 1) as i64,
    ) by {
        assert(after.rows[empty.rows.len() + i] == t.rows[i].with_id(
            Some((t.last_id + i + 1) as i64),
        ));
    }
}

} // verus!
