//! The session of the interactive front end: the list on screen and the
//! cursor in it, the draft of a new record, and what each key does to them
//! and to the store.

use crate::amount::{
    erase_amount_char, erased_amount, lemma_parsed_not_negative, type_amount_char, typed_amount,
    Amount, Decimal,
};
use crate::date::{Date, Ymd};
use crate::db::{lemma_delete_then_get, lemma_insert_then_get, Database, StoreError, Table};
use crate::expense::{views, Expense, ExpenseView};
use vstd::prelude::*;
use vstd::string::StringExecFns;

verus! {

/// The field of the draft record that receives keystrokes.
#[derive(Clone, Copy, PartialEq, Eq, Debug, Structural)]
pub enum InputMode {
    Date,
    Name,
    Category,
    Amount,
}

impl InputMode {
    /// The field that follows `self` in the cycle Date, Name, Category,
    /// Amount, Date.
    pub open spec fn next_spec(self) -> InputMode {
        match self {
            InputMode::Date => InputMode::Name,
            InputMode::Name => InputMode::Category,
            InputMode::Category => InputMode::Amount,
            InputMode::Amount => InputMode::Date,
        }
    }

    /// Moves the focus to the next field, wrapping from Amount back to Date.
    #[verifier::when_used_as_spec(next_spec)]
    pub fn next(self) -> (r: InputMode)
        ensures
            r == self.next_spec(),
    {
        match self {
            InputMode::Date => InputMode::Name,
            InputMode::Name => InputMode::Category,
            InputMode::Category => InputMode::Amount,
            InputMode::Amount => InputMode::Date,
        }
    }
}

/// A key as the terminal reports it.
#[derive(Clone, Copy, PartialEq, Eq, Debug, Structural)]
pub enum Key {
    Char(char),
    Backspace,
    Tab,
    Enter,
    Esc,
    Up,
    Down,
    /// Any key that the session does not know.
    Other,
}

/// What the caller has to do after a key.
#[derive(Clone, Copy, PartialEq, Eq, Debug, Structural)]
pub enum Outcome {
    /// Draw the session again and wait for the next key.
    Continue,
    /// Leave the loop.
    Quit,
    /// Tell the user that the store refused the draft; the session goes on.
    Refused(StoreError),
}

/// The session as mathematics sees it.
pub struct AppView {
    pub expenses: Seq<ExpenseView>,
    pub selected_index: Option<usize>,
    pub adding_expense: bool,
    pub new_expense: ExpenseView,
    pub amount_text: Seq<char>,
    pub input_mode: InputMode,
}

/// The cursor brought back into a list of `len` rows: the last row where it
/// pointed behind it, no row where there is none.
pub open spec fn clamped(cursor: Option<usize>, len: nat) -> Option<usize> {
    match cursor {
        Some(i) => if len == 0 {
            None
        } else if i >= len {
            Some((len - 1) as usize)
        } else {
            Some(i)
        },
        None => None,
    }
}

/// An empty draft dated `today`.
pub open spec fn fresh_draft(today: Ymd) -> ExpenseView {
    ExpenseView {
        id: None,
        date: today.iso_text(),
        name: Seq::empty(),
        category: Seq::empty(),
        amount: Decimal { units: 0, scale: 0 },
    }
}

impl AppView {
    /// What holds of every session: the cursor, where there is one, points
    /// at a row of the list, and the draft has no identity and no negative
    /// amount.
    pub open spec fn wf(self) -> bool {
        &&& self.selected_index matches Some(i) ==> i < self.expenses.len()
        &&& self.new_expense.id is None
        &&& self.new_expense.valid()
    }

    /// The session as it starts: browsing an empty list.
    pub open spec fn initial(today: Ymd) -> AppView {
        AppView {
            expenses: Seq::empty(),
            selected_index: None,
            adding_expense: false,
            new_expense: fresh_draft(today),
            amount_text: Seq::empty(),
            input_mode: InputMode::Date,
        }
    }

    /// The session showing another list, the cursor clamped into it.
    pub open spec fn with_expenses(self, expenses: Seq<ExpenseView>) -> AppView {
        AppView {
            expenses,
            selected_index: clamped(self.selected_index, expenses.len()),
            ..self
        }
    }

    /// The cursor one row up: onto the first row where there was no cursor,
    /// and nowhere in an empty list.
    pub open spec fn move_up(self) -> AppView {
        AppView {
            selected_index: match self.selected_index {
                Some(i) => if i > 0 {
                    Some((i - 1) as usize)
                } else {
                    Some(i)
                },
                None => if self.expenses.len() > 0 {
                    Some(0usize)
                } else {
                    None
                },
            },
            ..self
        }
    }

    /// The cursor one row down, staying on the last row: onto the first row
    /// where there was no cursor, and nowhere in an empty list.
    pub open spec fn move_down(self) -> AppView {
        AppView {
            selected_index: match self.selected_index {
                Some(i) => if i + 1 < self.expenses.len() {
                    Some((i + 1) as usize)
                } else {
                    Some(i)
                },
                None => if self.expenses.len() > 0 {
                    Some(0usize)
                } else {
                    None
                },
            },
            ..self
        }
    }

    /// Composing a new record from an empty draft dated `today`, the focus
    /// on the date.
    pub open spec fn start_add(self, today: Ymd) -> AppView {
        AppView {
            adding_expense: true,
            new_expense: fresh_draft(today),
            amount_text: Seq::empty(),
            input_mode: InputMode::Date,
            ..self
        }
    }

    /// The focus on the next field.
    pub open spec fn next_field(self) -> AppView {
        AppView { input_mode: self.input_mode.next_spec(), ..self }
    }

    /// The draft after `c` was typed into the field in focus.
    pub open spec fn type_char(self, c: char) -> AppView {
        let draft = self.new_expense;
        match self.input_mode {
            InputMode::Date => AppView {
                new_expense: ExpenseView { date: draft.date.push(c), ..draft },
                ..self
            },
            InputMode::Name => AppView {
                new_expense: ExpenseView { name: draft.name.push(c), ..draft },
                ..self
            },
            InputMode::Category => AppView {
                new_expense: ExpenseView { category: draft.category.push(c), ..draft },
                ..self
            },
            InputMode::Amount => {
                let (amount, text) = typed_amount(draft.amount, self.amount_text, c);
                AppView { new_expense: ExpenseView { amount, ..draft }, amount_text: text, ..self }
            },
        }
    }

    /// The draft after a backspace in the field in focus.
    pub open spec fn backspace(self) -> AppView {
        let draft = self.new_expense;
        match self.input_mode {
            InputMode::Date => AppView {
                new_expense: ExpenseView { date: without_last(draft.date), ..draft },
                ..self
            },
            InputMode::Name => AppView {
                new_expense: ExpenseView { name: without_last(draft.name), ..draft },
                ..self
            },
            InputMode::Category => AppView {
                new_expense: ExpenseView { category: without_last(draft.category), ..draft },
                ..self
            },
            InputMode::Amount => {
                let (amount, text) = erased_amount(self.amount_text);
                AppView { new_expense: ExpenseView { amount, ..draft }, amount_text: text, ..self }
            },
        }
    }

    /// Browsing again, the draft given up.
    pub open spec fn cancel(self) -> AppView {
        AppView { adding_expense: false, ..self }
    }

    /// Handing the draft to the store. Where the store accepts it the
    /// session browses the list read back from the store; where it refuses,
    /// session and store stay as they are and the refusal is reported.
    pub open spec fn commit(self, store: Table) -> (AppView, Table, Outcome) {
        match store.insert_error(self.new_expense) {
            None => {
                let after = store.insert(self.new_expense);
                (
                    AppView { adding_expense: false, ..self.with_expenses(after.rows) },
                    after,
                    Outcome::Continue,
                )
            },
            Some(e) => (self, store, Outcome::Refused(e)),
        }
    }

    /// The identity of the row under the cursor, where there is a cursor
    /// and its row has one.
    pub open spec fn selected_id(self) -> Option<i64> {
        match self.selected_index {
            Some(i) => if i < self.expenses.len() {
                self.expenses[i as int].id
            } else {
                None
            },
            None => None,
        }
    }

    /// Deleting the row under the cursor from the store and showing the
    /// list read back from it. Nothing happens without a cursor or where
    /// its row has no identity.
    pub open spec fn delete_selected(self, store: Table) -> (AppView, Table) {
        match self.selected_id() {
            Some(id) => (self.with_expenses(store.delete(id).rows), store.delete(id)),
            None => (self, store),
        }
    }

    /// Whether the key starts a new draft: `a` while browsing. Only such a
    /// key reads the date that `step` is given.
    pub open spec fn starts_draft(self, key: Key) -> bool {
        !self.adding_expense && key == Key::Char('a')
    }

    /// What a key does to the session and the store. While a record is
    /// composed the keys edit the draft; otherwise they move the cursor and
    /// give the commands `q`, `a` and `d`.
    pub open spec fn step(self, store: Table, key: Key, today: Ymd) -> (AppView, Table, Outcome) {
        if self.adding_expense {
            match key {
                Key::Tab => (self.next_field(), store, Outcome::Continue),
                Key::Char(c) => (self.type_char(c), store, Outcome::Continue),
                Key::Backspace => (self.backspace(), store, Outcome::Continue),
                Key::Enter => self.commit(store),
                Key::Esc => (self.cancel(), store, Outcome::Continue),
                _ => (self, store, Outcome::Continue),
            }
        } else {
            match key {
                Key::Char(c) => if c == 'q' {
                    (self, store, Outcome::Quit)
                } else if c == 'a' {
                    (self.start_add(today), store, Outcome::Continue)
                } else if c == 'd' {
                    (
                        self.delete_selected(store).0,
                        self.delete_selected(store).1,
                        Outcome::Continue,
                    )
                } else {
                    (self, store, Outcome::Continue)
                },
                Key::Up => (self.move_up(), store, Outcome::Continue),
                Key::Down => (self.move_down(), store, Outcome::Continue),
                _ => (self, store, Outcome::Continue),
            }
        }
    }
}

/// The hint under the list: the commands that make sense right now.
pub open spec fn footer(has_rows: bool) -> Seq<char> {
    if has_rows {
        "Press 'q' to quit, 'a' to add expense"@ + ", 'up/down' to select, 'd' to delete expense"@
    } else {
        "Press 'q' to quit, 'a' to add expense"@
    }
}

/// A text without its last character; the empty text stays empty.
pub open spec fn without_last(s: Seq<char>) -> Seq<char> {
    if s.len() > 0 {
        s.drop_last()
    } else {
        s
    }
}

/// Whatever the key, the cursor stays in the list: a well-formed session
/// and a well-formed store are well formed after every step.
pub proof fn lemma_step_keeps_cursor_in_list(s: AppView, store: Table, key: Key, today: Ymd)
    requires
        s.wf(),
        store.wf(),
    ensures
        s.step(store, key, today).0.wf(),
        s.step(store, key, today).1.wf(),
        s.step(store, key, today).0.selected_index matches Some(i) ==> 0 <= i < s.step(
            store,
            key,
            today,
        ).0.expenses.len(),
{
    if s.adding_expense {
        match key {
            Key::Char(c) => {
                lemma_parsed_not_negative(s.amount_text.push(c));
            },
            Key::Backspace => {
                lemma_parsed_not_negative(without_last(s.amount_text));
            },
            Key::Enter => {
                if store.insert_error(s.new_expense).is_none() {
                    lemma_insert_then_get(store, s.new_expense);
                }
            },
            _ => {},
        }
    } else {
        match s.selected_id() {
            Some(id) => {
                lemma_delete_then_get(store, id);
            },
            None => {},
        }
    }
}

/// The date matters only to a key that starts a new draft: for every other
/// key a step is the same whatever the date.
pub proof fn lemma_date_matters_only_to_new_draft(
    s: AppView,
    store: Table,
    key: Key,
    today: Ymd,
    other: Ymd,
)
    requires
        !s.starts_draft(key),
    ensures
        s.step(store, key, today) == s.step(store, key, other),
{
}

/// In an empty list there is no cursor, and moving it up or down gives
/// none.
pub proof fn lemma_no_cursor_in_empty_list(s: AppView)
    requires
        s.wf(),
        s.expenses.len() == 0,
    ensures
        s.selected_index.is_none(),
        s.move_up().selected_index.is_none(),
        s.move_down().selected_index.is_none(),
{
}

/// The session: one owner holds it and hands it to each handler.
pub struct App {
    expenses: Vec<Expense>,
    selected_index: Option<usize>,
    adding_expense: bool,
    new_expense: Expense,
    amount_text: String,
    input_mode: InputMode,
}

impl View for App {
    type V = AppView;

    closed spec fn view(&self) -> AppView {
        AppView {
            expenses: views(self.expenses@),
            selected_index: self.selected_index,
            adding_expense: self.adding_expense,
            new_expense: self.new_expense@,
            amount_text: self.amount_text@,
            input_mode: self.input_mode,
        }
    }
}

/// An empty draft dated `today`.
fn new_draft(today: Date) -> (draft: Expense)
    ensures
        draft@ == fresh_draft(today@),
{
    Expense {
        id: None,
        date: today.to_iso_string(),
        name: String::new(),
        category: String::new(),
        amount: Amount::zero(),
    }
}

impl App {
    #[verifier::type_invariant]
    spec fn well_formed(self) -> bool {
        self@.wf()
    }

    /// A session that browses an empty list; its draft is dated `today`.
    pub fn new(today: Date) -> (app: App)
        ensures
            app@.wf(),
            app@ == AppView::initial(today@),
    {
        let app = App {
            expenses: Vec::new(),
            selected_index: None,
            adding_expense: false,
            new_expense: new_draft(today),
            amount_text: String::new(),
            input_mode: InputMode::Date,
        };
        assert(views(app.expenses@) =~= Seq::empty());
        app
    }

    /// The list on screen.
    pub fn expenses(&self) -> (r: &Vec<Expense>)
        ensures
            views(r@) == self@.expenses,
    {
        &self.expenses
    }

    /// The cursor: the place of the highlighted row, which is a row of the
    /// list.
    pub fn selected_index(&self) -> (r: Option<usize>)
        ensures
            r == self@.selected_index,
            r matches Some(i) ==> i < self@.expenses.len(),
    {
        proof {
            use_type_invariant(self);
        }
        self.selected_index
    }

    /// Whether a new record is being composed.
    pub fn adding_expense(&self) -> (r: bool)
        ensures
            r == self@.adding_expense,
    {
        self.adding_expense
    }

    /// The draft.
    pub fn new_expense(&self) -> (r: &Expense)
        ensures
            r@ == self@.new_expense,
    {
        &self.new_expense
    }

    /// The text typed into the amount field so far.
    pub fn amount_text(&self) -> (r: &str)
        ensures
            r@ == self@.amount_text,
    {
        self.amount_text.as_str()
    }

    /// The field in focus.
    pub fn input_mode(&self) -> (r: InputMode)
        ensures
            r == self@.input_mode,
    {
        self.input_mode
    }

    /// The hint under the list. It names the keys for selecting and
    /// deleting only where the list has a row.
    pub fn footer_text(&self) -> (s: String)
        ensures
            s@ == footer(self@.expenses.len() > 0),
    {
        let mut s = "Press 'q' to quit, 'a' to add expense".to_owned();
        if self.expenses.len() > 0 {
            s.append(", 'up/down' to select, 'd' to delete expense");
        }
        s
    }

    /// Shows another list and clamps the cursor into it.
    pub fn set_expenses(&mut self, expenses: Vec<Expense>)
        ensures
            final(self)@.wf(),
            final(self)@ == old(self)@.with_expenses(views(expenses@)),
    {
        proof {
            use_type_invariant(&*self);
        }
        let cursor = match self.selected_index {
            Some(i) => if expenses.len() == 0 {
                None
            } else if i >= expenses.len() {
                Some(expenses.len() - 1)
            } else {
                Some(i)
            },
            None => None,
        };
        self.selected_index = None;
        self.expenses = expenses;
        self.selected_index = cursor;
    }

    /// Moves the cursor one row up.
    pub fn move_up(&mut self)
        ensures
            final(self)@.wf(),
            final(self)@ == old(self)@.move_up(),
    {
        proof {
            use_type_invariant(&*self);
        }
        match self.selected_index {
            Some(i) => {
                if i > 0 {
                    self.selected_index = Some(i - 1);
                }
            },
            None => {
                if self.expenses.len() > 0 {
                    self.selected_index = Some(0);
                }
            },
        }
    }

    /// Moves the cursor one row down.
    pub fn move_down(&mut self)
        ensures
            final(self)@.wf(),
            final(self)@ == old(self)@.move_down(),
    {
        proof {
            use_type_invariant(&*self);
        }
        match self.selected_index {
            Some(i) => {
                let len = self.expenses.len();
                assert(i < len);
                if i + 1 < len {
                    self.selected_index = Some(i + 1);
                }
            },
            None => {
                if self.expenses.len() > 0 {
                    self.selected_index = Some(0);
                }
            },
        }
    }

    /// Starts composing a new record dated `today`.
    pub fn start_add(&mut self, today: Date)
        ensures
            final(self)@.wf(),
            final(self)@ == old(self)@.start_add(today@),
    {
        proof {
            use_type_invariant(&*self);
        }
        self.new_expense = new_draft(today);
        self.amount_text = String::new();
        self.input_mode = InputMode::Date;
        self.adding_expense = true;
    }

    /// Moves the focus to the next field.
    pub fn next_field(&mut self)
        ensures
            final(self)@.wf(),
            final(self)@ == old(self)@.next_field(),
    {
        proof {
            use_type_invariant(&*self);
        }
        self.input_mode = self.input_mode.next();
    }

    /// Types `c` into the field in focus.
    pub fn type_char(&mut self, c: char)
        ensures
            final(self)@.wf(),
            final(self)@ == old(self)@.type_char(c),
    {
        proof {
            use_type_invariant(&*self);
        }
        let mut text = String::new();
        match self.input_mode {
            InputMode::Date => {
                core::mem::swap(&mut self.new_expense.date, &mut text);
                text.push(c);
                self.new_expense.date = text;
            },
            InputMode::Name => {
                core::mem::swap(&mut self.new_expense.name, &mut text);
                text.push(c);
                self.new_expense.name = text;
            },
            InputMode::Category => {
                core::mem::swap(&mut self.new_expense.category, &mut text);
                text.push(c);
                self.new_expense.category = text;
            },
            InputMode::Amount => {
                core::mem::swap(&mut self.amount_text, &mut text);
                let amount = type_amount_char(self.new_expense.amount, &mut text, c);
                proof {
                    lemma_parsed_not_negative(text@);
                }
                self.new_expense.amount = amount;
                self.amount_text = text;
            },
        }
    }

    /// Removes the last character of the field in focus.
    pub fn backspace(&mut self)
        ensures
            final(self)@.wf(),
            final(self)@ == old(self)@.backspace(),
    {
        proof {
            use_type_invariant(&*self);
        }
        let mut text = String::new();
        match self.input_mode {
            InputMode::Date => {
                core::mem::swap(&mut self.new_expense.date, &mut text);
                text.pop();
                self.new_expense.date = text;
            },
            InputMode::Name => {
                core::mem::swap(&mut self.new_expense.name, &mut text);
                text.pop();
                self.new_expense.name = text;
            },
            InputMode::Category => {
                core::mem::swap(&mut self.new_expense.category, &mut text);
                text.pop();
                self.new_expense.category = text;
            },
            InputMode::Amount => {
                core::mem::swap(&mut self.amount_text, &mut text);
                let amount = erase_amount_char(&mut text);
                proof {
                    lemma_parsed_not_negative(text@);
                }
                self.new_expense.amount = amount;
                self.amount_text = text;
            },
        }
    }

    /// Gives the draft up and browses again.
    pub fn cancel(&mut self)
        ensures
            final(self)@.wf(),
            final(self)@ == old(self)@.cancel(),
    {
        proof {
            use_type_invariant(&*self);
        }
        self.adding_expense = false;
    }

    /// Hands the draft to the store and, where the store accepts it, shows
    /// the list read back from the store and browses again.
    pub fn commit(&mut self, db: &mut Database) -> (out: Outcome)
        ensures
            final(self)@.wf(),
            final(db)@.wf(),
            (final(self)@, final(db)@, out) == old(self)@.commit(old(db)@),
    {
        proof {
            use_type_invariant(&*self);
        }
        match db.insert_expense(&self.new_expense) {
            Ok(_) => {
                let list = db.list_expenses();
                self.set_expenses(list);
                self.adding_expense = false;
                Outcome::Continue
            },
            Err(e) => Outcome::Refused(e),
        }
    }

    /// Deletes the row under the cursor from the store and shows the list
    /// read back from it.
    pub fn delete_selected(&mut self, db: &mut Database)
        ensures
            final(self)@.wf(),
            final(db)@.wf(),
            (final(self)@, final(db)@) == old(self)@.delete_selected(old(db)@),
    {
        proof {
            use_type_invariant(&*self);
        }
        db.check_wf();
        let id = match self.selected_index {
            Some(i) => if i < self.expenses.len() {
                self.expenses[i].id
            } else {
                None
            },
            None => None,
        };
        match id {
            Some(id) => {
                db.delete_expense(id);
                let list = db.list_expenses();
                self.set_expenses(list);
            },
            None => {},
        }
    }

    /// Whether `key` starts a new draft, so that `step` reads the date it
    /// is given. For every other key any date will do.
    pub fn starts_draft(&self, key: Key) -> (r: bool)
        ensures
            r == self@.starts_draft(key),
    {
        !self.adding_expense && key == Key::Char('a')
    }

    /// Does what `key` asks for, `today` being the date of a new draft.
    pub fn step(&mut self, db: &mut Database, key: Key, today: Date) -> (out: Outcome)
        ensures
            final(self)@.wf(),
            final(db)@.wf(),
            (final(self)@, final(db)@, out) == old(self)@.step(old(db)@, key, today@),
    {
        proof {
            use_type_invariant(&*self);
        }
        db.check_wf();
        if self.adding_expense {
            match key {
                Key::Tab => {
                    self.next_field();
                    Outcome::Continue
                },
                Key::Char(c) => {
                    self.type_char(c);
                    Outcome::Continue
                },
                Key::Backspace => {
                    self.backspace();
                    Outcome::Continue
                },
                Key::Enter => self.commit(db),
                Key::Esc => {
                    self.cancel();
                    Outcome::Continue
                },
                _ => Outcome::Continue,
            }
        } else {
            match key {
                Key::Char(c) => {
                    if c == 'q' {
                        Outcome::Quit
                    } else if c == 'a' {
                        self.start_add(today);
                        Outcome::Continue
                    } else if c == 'd' {
                        self.delete_selected(db);
                        Outcome::Continue
                    } else {
                        Outcome::Continue
                    }
                },
                Key::Up => {
                    self.move_up();
                    Outcome::Continue
                },
                Key::Down => {
                    self.move_down();
                    Outcome::Continue
                },
                _ => Outcome::Continue,
            }
        }
    }
}

} // verus!
