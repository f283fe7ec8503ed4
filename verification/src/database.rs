//! The engine: a set of named tables, the operations on it, and the framing
//! of what is kept at rest under the database's secret.

use crate::cipher::{decrypt, encrypt, opened, same_outcome, sealed_text, sized_key, DecodeError};
use crate::record::{Record, RecordView, records_view};
use crate::table::{
    deleted, empty_table, inserted, selected, updated, well_formed, Table, TableView,
};
use crate::text::{ends_with, has_suffix, same_text, texts};
use vstd::prelude::*;
use vstd::string::*;
use vstd::utf8::*;

verus! {

/// A table operation that cannot be carried out on the tables that exist.
#[derive(Debug, Clone, Copy, PartialEq, Eq, Structural)]
pub enum SchemaError {
    /// A table of that name exists already.
    TableExists,
    /// No table has that name.
    TableMissing,
}

/// A database that is set up in a way it cannot work with.
#[derive(Debug, Clone, Copy, PartialEq, Eq, Structural)]
pub enum ConfigError {
    /// The file path does not end in `.ht`.
    BadExtension,
}

/// A change to the rows of one table, with its own copies of the operands.
#[derive(Debug, Clone, PartialEq, Eq)]
pub enum QueueItem {
    /// Append the projection of a record to a table.
    Insert(String, Record),
    /// In a table, lay a patch (the second record) over every row that
    /// satisfies a query (the first).
    Update(String, Record, Record),
    /// In a table, remove every row that satisfies a query.
    Delete(String, Record),
}

/// What was found at the file path when the database was read.
#[derive(Debug, Clone, PartialEq, Eq)]
pub enum Found {
    /// No file: the database is new.
    Nothing,
    /// A file whose text does not open under the secret.
    Unreadable(DecodeError),
    /// A file whose payload is no set of tables.
    Unstructured,
    /// The tables that the file holds.
    Tables(Vec<(String, Table)>),
}

/// Why the tables that a file holds could not be had.
#[derive(Debug, Clone, Copy, PartialEq, Eq, Structural)]
pub enum LoadError {
    /// The file's text does not open under the secret.
    Decode(DecodeError),
    /// The payload is no set of tables.
    Structure,
}

/// One call on the engine.
#[derive(Debug, Clone, PartialEq, Eq)]
pub enum Request {
    /// Create an empty table of this name over these columns.
    CreateTable(String, Vec<String>),
    /// Remove the table of this name.
    DeleteTable(String),
    /// Change the rows of one table.
    Change(QueueItem),
    /// Give the rows of the table of this name that satisfy the query, or
    /// all of them where there is none.
    Select(String, Option<Record>),
}

/// What the engine answers to a call it carried out.
#[derive(Debug, Clone, PartialEq, Eq)]
pub enum Reply {
    /// The tables were changed and are to be written back now.
    Changed,
    /// The rows asked for; nothing is to be written.
    Rows(Vec<Record>),
}

/// Why the engine did not carry out a call.
#[derive(Debug, Clone, Copy, PartialEq, Eq, Structural)]
pub enum EngineError {
    /// The database cannot be kept at its path.
    Config(ConfigError),
    /// A file was found and could not be read.
    Load(LoadError),
    /// The call does not fit the tables that exist.
    Schema(SchemaError),
}

/// What a set of tables is: each name with its table.
pub type TablesView = Map<Seq<char>, TableView>;

/// The bytes that a file path must end with.
pub open spec fn store_suffix() -> Seq<u8> {
    seq![0x2eu8, 0x68u8, 0x74u8]
}

/// The mapping that a list of named tables stands for; where a name comes
/// twice, the later table.
pub open spec fn table_map(entries: Seq<(Seq<char>, TableView)>) -> TablesView
    decreases entries.len(),
{
    if entries.len() == 0 {
        Map::empty()
    } else {
        table_map(entries.drop_last()).insert(entries.last().0, entries.last().1)
    }
}

/// Whether no name comes twice.
pub open spec fn distinct_names(entries: Seq<(Seq<char>, TableView)>) -> bool {
    forall|i: int, j: int|
        0 <= i < entries.len() && 0 <= j < entries.len() && i != j ==> (#[trigger] entries[i]).0 != (
        #[trigger] entries[j]).0
}

/// The named tables that a list of pairs holds.
pub open spec fn named_tables(list: Seq<(String, Table)>) -> Seq<(Seq<char>, TableView)> {
    list.map_values(|e: (String, Table)| (e.0@, e.1@))
}

/// The tables that a database holds after reading what was found: those of
/// the file, or none where there is no file or none that can be read.
pub open spec fn restored(found: Found) -> TablesView {
    match found {
        Found::Tables(list) => table_map(named_tables(list@)),
        _ => Map::empty(),
    }
}

/// What reading reports: nothing for a new database and for tables that
/// were read, the reason where a file was there and could not be read.
pub open spec fn report(found: Found) -> Result<(), LoadError> {
    match found {
        Found::Nothing => Ok(()),
        Found::Unreadable(e) => Err(LoadError::Decode(e)),
        Found::Unstructured => Err(LoadError::Structure),
        Found::Tables(_) => Ok(()),
    }
}

/// Whether every table that was found is well formed.
pub open spec fn sound(found: Found) -> bool {
    match found {
        Found::Tables(list) => forall|i: int| 0 <= i < list@.len() ==> (#[trigger] list@[i]).1.wf(),
        _ => true,
    }
}

/// The table that a change is for.
pub open spec fn target(item: QueueItem) -> Seq<char> {
    match item {
        QueueItem::Insert(name, _) => name@,
        QueueItem::Update(name, _, _) => name@,
        QueueItem::Delete(name, _) => name@,
    }
}

/// The table `t` after a change to it.
pub open spec fn changed(t: TableView, item: QueueItem) -> TableView {
    match item {
        QueueItem::Insert(_, record) => inserted(t, record@),
        QueueItem::Update(_, query, patch) => updated(t, query@, patch@),
        QueueItem::Delete(_, query) => deleted(t, query@),
    }
}

/// The tables after a change to one of them.
pub open spec fn applied(tables: TablesView, item: QueueItem) -> TablesView {
    tables.insert(target(item), changed(tables[target(item)], item))
}

/// Whether a call changes tables, so that they must be written back.
pub open spec fn mutates(request: Request) -> bool {
    !(request is Select)
}

/// Why a call does not fit a set of tables, if it does not.
pub open spec fn refusal(tables: TablesView, request: Request) -> Option<SchemaError> {
    match request {
        Request::CreateTable(name, _) => if tables.dom().contains(name@) {
            Some(SchemaError::TableExists)
        } else {
            None
        },
        Request::DeleteTable(name) => if tables.dom().contains(name@) {
            None
        } else {
            Some(SchemaError::TableMissing)
        },
        Request::Change(item) => if tables.dom().contains(target(item)) {
            None
        } else {
            Some(SchemaError::TableMissing)
        },
        Request::Select(name, _) => if tables.dom().contains(name@) {
            None
        } else {
            Some(SchemaError::TableMissing)
        },
    }
}

/// The tables after a call that fits them.
pub open spec fn carried_out(tables: TablesView, request: Request) -> TablesView {
    match request {
        Request::CreateTable(name, columns) => tables.insert(name@, empty_table(texts(columns@))),
        Request::DeleteTable(name) => tables.remove(name@),
        Request::Change(item) => applied(tables, item),
        Request::Select(_, _) => tables,
    }
}

/// The rows that a call asks for, if it asks for any.
pub open spec fn answer(tables: TablesView, request: Request) -> Option<Seq<RecordView>> {
    match request {
        Request::Select(name, query) => Some(
            selected(
                tables[name@],
                match query {
                    Some(q) => Some(q@),
                    None => None,
                },
            ),
        ),
        _ => None,
    }
}

/// The rows that a reply holds, if it holds any.
pub open spec fn rows_of(reply: Reply) -> Option<Seq<RecordView>> {
    match reply {
        Reply::Rows(rows) => Some(records_view(rows@)),
        Reply::Changed => None,
    }
}

/// The tables that a database holds after a call that found `found` at the
/// file path: those of the file, changed as the call says where it fits
/// them.
pub open spec fn state_after(found: Found, request: Request) -> TablesView {
    if report(found) is Ok && refusal(restored(found), request) is None {
        carried_out(restored(found), request)
    } else {
        restored(found)
    }
}

/// Whether `out` is what the engine owes for a call that found `found`: the
/// reason where the file could not be read, else the reason where the call
/// does not fit the tables of the file, else the rows asked for or the word
/// that the tables changed.
pub open spec fn owed(found: Found, request: Request, out: Result<Reply, EngineError>) -> bool {
    match out {
        Err(EngineError::Config(_)) => false,
        Err(EngineError::Load(e)) => report(found) == Err::<(), LoadError>(e),
        Err(EngineError::Schema(e)) => report(found) is Ok && refusal(restored(found), request)
            == Some(e),
        Ok(reply) => report(found) is Ok && refusal(restored(found), request) is None && rows_of(
            reply,
        ) == answer(restored(found), request),
    }
}

/// A name that no entry has is not in the mapping.
pub proof fn lemma_map_absent(entries: Seq<(Seq<char>, TableView)>, name: Seq<char>)
    requires
        forall|i: int| 0 <= i < entries.len() ==> (#[trigger] entries[i]).0 != name,
    ensures
        !table_map(entries).dom().contains(name),
    decreases entries.len(),
{
    if entries.len() > 0 {
        let front = entries.drop_last();
        assert forall|i: int| 0 <= i < front.len() implies (#[trigger] front[i]).0 != name by {
            assert(front[i] == entries[i]);
        }
        lemma_map_absent(front, name);
        assert(entries.last() == entries[entries.len() - 1]);
    }
}

/// Where no name comes twice, the mapping has each entry's table under its
/// name.
pub proof fn lemma_map_present(entries: Seq<(Seq<char>, TableView)>, at: int)
    requires
        distinct_names(entries),
        0 <= at < entries.len(),
    ensures
        table_map(entries).dom().contains(entries[at].0),
        table_map(entries)[entries[at].0] == entries[at].1,
    decreases entries.len(),
{
    let front = entries.drop_last();
    if at < entries.len() - 1 {
        assert forall|i: int, j: int|
            0 <= i < front.len() && 0 <= j < front.len() && i != j implies (#[trigger] front[i]).0 != (
            #[trigger] front[j]).0 by {
            assert(front[i] == entries[i]);
            assert(front[j] == entries[j]);
        }
        lemma_map_present(front, at);
        assert(front[at] == entries[at]);
        assert(entries.last() == entries[entries.len() - 1]);
        assert(entries[at].0 != entries[entries.len() - 1].0);
    } else {
        assert(entries.last() == entries[at]);
    }
}

/// A name in the mapping is the name of some entry.
pub proof fn lemma_map_witness(entries: Seq<(Seq<char>, TableView)>, name: Seq<char>) -> (at: int)
    requires
        table_map(entries).dom().contains(name),
    ensures
        0 <= at < entries.len(),
        entries[at].0 == name,
{
    if forall|i: int| 0 <= i < entries.len() ==> (#[trigger] entries[i]).0 != name {
        lemma_map_absent(entries, name);
    }
    choose|i: int| 0 <= i < entries.len() && (#[trigger] entries[i]).0 == name
}

/// Putting another table in an entry's place puts it under that name in the
/// mapping.
pub proof fn lemma_map_update(entries: Seq<(Seq<char>, TableView)>, at: int, t: TableView)
    requires
        distinct_names(entries),
        0 <= at < entries.len(),
    ensures
        distinct_names(entries.update(at, (entries[at].0, t))),
        table_map(entries.update(at, (entries[at].0, t))) == table_map(entries).insert(
            entries[at].0,
            t,
        ),
{
    let name = entries[at].0;
    let after = entries.update(at, (name, t));
    let want = table_map(entries).insert(name, t);
    assert forall|i: int| 0 <= i < after.len() implies (#[trigger] after[i]).0 == entries[i].0 by {}
    assert(distinct_names(after)) by {
        assert forall|i: int, j: int|
            0 <= i < after.len() && 0 <= j < after.len() && i != j implies (#[trigger] after[i]).0 != (
            #[trigger] after[j]).0 by {
            assert(after[i].0 == entries[i].0);
            assert(after[j].0 == entries[j].0);
        }
    }
    assert forall|k: Seq<char>| table_map(after).dom().contains(k) <==> want.dom().contains(k) by {
        if table_map(after).dom().contains(k) {
            let i = lemma_map_witness(after, k);
            lemma_map_present(entries, i);
        }
        if want.dom().contains(k) {
            if k == name {
                lemma_map_present(after, at);
            } else {
                let i = lemma_map_witness(entries, k);
                lemma_map_present(after, i);
            }
        }
    }
    assert forall|k: Seq<char>| table_map(after).dom().contains(k) implies table_map(after)[k]
        == want[k] by {
        let i = lemma_map_witness(after, k);
        lemma_map_present(after, i);
        lemma_map_present(entries, i);
    }
    assert(table_map(after) =~= want);
}

/// Taking an entry out takes its name out of the mapping.
pub proof fn lemma_map_remove(entries: Seq<(Seq<char>, TableView)>, at: int)
    requires
        distinct_names(entries),
        0 <= at < entries.len(),
    ensures
        distinct_names(entries.remove(at)),
        table_map(entries.remove(at)) == table_map(entries).remove(entries[at].0),
{
    let name = entries[at].0;
    let after = entries.remove(at);
    let want = table_map(entries).remove(name);
    assert forall|i: int| 0 <= i < after.len() implies #[trigger] after[i] == entries[if i < at {
        i
    } else {
        i + 1
    }] by {}
    assert(distinct_names(after)) by {
        assert forall|i: int, j: int|
            0 <= i < after.len() && 0 <= j < after.len() && i != j implies (#[trigger] after[i]).0 != (
            #[trigger] after[j]).0 by {
            let a = if i < at { i } else { i + 1 };
            let b = if j < at { j } else { j + 1 };
            assert(after[i] == entries[a]);
            assert(after[j] == entries[b]);
        }
    }
    assert forall|k: Seq<char>| table_map(after).dom().contains(k) <==> want.dom().contains(k) by {
        if table_map(after).dom().contains(k) {
            let i = lemma_map_witness(after, k);
            let a = if i < at { i } else { i + 1 };
            assert(after[i] == entries[a]);
            lemma_map_present(entries, a);
            assert(entries[a].0 != entries[at].0);
        }
        if want.dom().contains(k) {
            let a = lemma_map_witness(entries, k);
            let i = if a < at { a } else { a - 1 };
            assert(after[i] == entries[a]);
            lemma_map_present(after, i);
        }
    }
    assert forall|k: Seq<char>| table_map(after).dom().contains(k) implies table_map(after)[k]
        == want[k] by {
        let i = lemma_map_witness(after, k);
        let a = if i < at { i } else { i + 1 };
        assert(after[i] == entries[a]);
        lemma_map_present(after, i);
        lemma_map_present(entries, a);
    }
    assert(table_map(after) =~= want);
}

/// The bytes of the literal `.ht`.
proof fn lemma_suffix_bytes()
    ensures
        ".ht".spec_bytes() == store_suffix(),
{
    reveal_strlit(".ht");
    let chars = ".ht"@;
    assert(chars =~= seq!['.', 'h', 't']);
    assert(is_ascii_chars(chars));
    is_ascii_chars_encode_utf8(chars);
    assert(encode_utf8(chars) =~= store_suffix());
}

/// A set of named tables with the place and the secret it is kept under.
pub struct Database {
    names: Vec<String>,
    tables: Vec<Table>,
    file_path: String,
    password: String,
}

impl View for Database {
    type V = TablesView;

    closed spec fn view(&self) -> TablesView {
        table_map(self.entries())
    }
}

impl Database {
    /// The named tables, in the order they are held in.
    pub closed spec fn entries(&self) -> Seq<(Seq<char>, TableView)> {
        Seq::new(self.names@.len(), |i: int| (self.names@[i]@, self.tables@[i]@))
    }

    /// Whether no name comes twice and every table is well formed.
    pub closed spec fn wf(&self) -> bool {
        &&& self.names@.len() == self.tables@.len()
        &&& distinct_names(self.entries())
        &&& forall|i: int| 0 <= i < self.tables@.len() ==> (#[trigger] self.tables@[i]).wf()
    }

    /// The file path.
    pub closed spec fn path(&self) -> Seq<char> {
        self.file_path@
    }

    /// The secret.
    pub closed spec fn secret(&self) -> Seq<char> {
        self.password@
    }

    /// The key that the secret gives.
    pub open spec fn key(&self) -> Seq<u8> {
        sized_key(encode_utf8(self.secret()))
    }

    /// Whether the file path ends in `.ht`.
    pub open spec fn storable(&self) -> bool {
        ends_with(encode_utf8(self.path()), store_suffix())
    }

    /// Every table of a well-formed database is well formed: each of its
    /// rows has exactly the table's columns, in the table's order.
    pub proof fn lemma_tables_well_formed(&self, name: Seq<char>)
        requires
            self.wf(),
            self@.dom().contains(name),
        ensures
            well_formed(self@[name]),
    {
        let at = lemma_map_witness(self.entries(), name);
        lemma_map_present(self.entries(), at);
        assert(self.tables@[at].wf());
    }

    /// A database without tables, to be kept at `file_path` under
    /// `password`.
    pub fn new(file_path: String, password: String) -> (out: Database)
        ensures
            out.wf(),
            out@ == Map::<Seq<char>, TableView>::empty(),
            out.path() == file_path@,
            out.secret() == password@,
    {
        let out = Database { names: Vec::new(), tables: Vec::new(), file_path, password };
        assert(out.entries() =~= Seq::<(Seq<char>, TableView)>::empty());
        out
    }

    /// The file path.
    pub fn file_path(&self) -> (out: &String)
        ensures
            out@ == self.path(),
    {
        &self.file_path
    }

    /// The secret.
    pub fn password(&self) -> (out: &String)
        ensures
            out@ == self.secret(),
    {
        &self.password
    }

    /// Where the table of that name is held.
    fn find(&self, table_name: &str) -> (out: Option<usize>)
        requires
            self.wf(),
        ensures
            match out {
                Some(at) => at < self.names@.len() && self.entries()[at as int].0 == table_name@
                    && self@.dom().contains(table_name@) && self@[table_name@]
                    == self.tables@[at as int]@,
                None => !self@.dom().contains(table_name@),
            },
    {
        let mut i: usize = 0;
        while i < self.names.len()
            invariant
                i <= self.names@.len(),
                self.wf(),
                forall|j: int| 0 <= j < i ==> (#[trigger] self.entries()[j]).0 != table_name@,
            decreases self.names@.len() - i,
        {
            if same_text(self.names[i].as_str(), table_name) {
                proof {
                    lemma_map_present(self.entries(), i as int);
                }
                return Some(i);
            }
            i += 1;
        }
        proof {
            lemma_map_absent(self.entries(), table_name@);
        }
        None
    }

    /// Whether a table of that name exists.
    pub fn has_table(&self, table_name: &str) -> (out: bool)
        requires
            self.wf(),
        ensures
            out == self@.dom().contains(table_name@),
    {
        self.find(table_name).is_some()
    }

    /// Creates an empty table over `columns`, unless the name is taken.
    pub fn create_table(&mut self, table_name: String, columns: Vec<String>) -> (out: Result<
        (),
        SchemaError,
    >)
        requires
            old(self).wf(),
        ensures
            final(self).wf(),
            final(self).path() == old(self).path(),
            final(self).secret() == old(self).secret(),
            old(self)@.dom().contains(table_name@) ==> out == Err::<(), SchemaError>(
                SchemaError::TableExists,
            ) && final(self)@ == old(self)@,
            !old(self)@.dom().contains(table_name@) ==> out == Ok::<(), SchemaError>(())
                && final(self)@ == old(self)@.insert(table_name@, empty_table(texts(columns@))),
    {
        if self.find(table_name.as_str()).is_some() {
            return Err(SchemaError::TableExists);
        }
        self.put(table_name, Table::new(columns));
        Ok(())
    }

    /// Removes the table of that name, if there is one.
    pub fn delete_table(&mut self, table_name: String) -> (out: Result<(), SchemaError>)
        requires
            old(self).wf(),
        ensures
            final(self).wf(),
            final(self).path() == old(self).path(),
            final(self).secret() == old(self).secret(),
            old(self)@.dom().contains(table_name@) ==> out == Ok::<(), SchemaError>(())
                && final(self)@ == old(self)@.remove(table_name@),
            !old(self)@.dom().contains(table_name@) ==> out == Err::<(), SchemaError>(
                SchemaError::TableMissing,
            ) && final(self)@ == old(self)@,
    {
        match self.find(table_name.as_str()) {
            None => Err(SchemaError::TableMissing),
            Some(at) => {
                let ghost before = self.entries();
                self.names.remove(at);
                self.tables.remove(at);
                proof {
                    assert(self.entries() =~= before.remove(at as int));
                    lemma_map_remove(before, at as int);
                }
                Ok(())
            },
        }
    }

    /// Copies of the rows of a table that satisfy `query`, or of all its
    /// rows where there is no query, in the table's order.
    pub fn select(&self, table_name: String, query: Option<Record>) -> (out: Result<
        Vec<Record>,
        SchemaError,
    >)
        requires
            self.wf(),
        ensures
            match out {
                Ok(rows) => self@.dom().contains(table_name@) && records_view(rows@) == selected(
                    self@[table_name@],
                    match query {
                        Some(q) => Some(q@),
                        None => None,
                    },
                ),
                Err(e) => !self@.dom().contains(table_name@) && e == SchemaError::TableMissing,
            },
    {
        match self.find(table_name.as_str()) {
            None => Err(SchemaError::TableMissing),
            Some(at) => match &query {
                Some(q) => Ok(self.tables[at].select(Some(q))),
                None => Ok(self.tables[at].select(None)),
            },
        }
    }

    /// Appends the projection of `record` to a table.
    pub fn insert(&mut self, table_name: String, record: Record) -> (out: Result<(), SchemaError>)
        requires
            old(self).wf(),
        ensures
            final(self).wf(),
            final(self).path() == old(self).path(),
            final(self).secret() == old(self).secret(),
            old(self)@.dom().contains(table_name@) ==> out == Ok::<(), SchemaError>(())
                && final(self)@ == old(self)@.insert(
                table_name@,
                inserted(old(self)@[table_name@], record@),
            ),
            !old(self)@.dom().contains(table_name@) ==> out == Err::<(), SchemaError>(
                SchemaError::TableMissing,
            ) && final(self)@ == old(self)@,
    {
        self.process_queue(QueueItem::Insert(table_name, record))
    }

    /// In a table, lays `new_data` over every row that satisfies `query`.
    pub fn update(&mut self, table_name: String, query: Record, new_data: Record) -> (out: Result<
        (),
        SchemaError,
    >)
        requires
            old(self).wf(),
        ensures
            final(self).wf(),
            final(self).path() == old(self).path(),
            final(self).secret() == old(self).secret(),
            old(self)@.dom().contains(table_name@) ==> out == Ok::<(), SchemaError>(())
                && final(self)@ == old(self)@.insert(
                table_name@,
                updated(old(self)@[table_name@], query@, new_data@),
            ),
            !old(self)@.dom().contains(table_name@) ==> out == Err::<(), SchemaError>(
                SchemaError::TableMissing,
            ) && final(self)@ == old(self)@,
    {
        self.process_queue(QueueItem::Update(table_name, query, new_data))
    }

    /// In a table, removes every row that satisfies `query`.
    pub fn delete(&mut self, table_name: String, query: Record) -> (out: Result<(), SchemaError>)
        requires
            old(self).wf(),
        ensures
            final(self).wf(),
            final(self).path() == old(self).path(),
            final(self).secret() == old(self).secret(),
            old(self)@.dom().contains(table_name@) ==> out == Ok::<(), SchemaError>(())
                && final(self)@ == old(self)@.insert(
                table_name@,
                deleted(old(self)@[table_name@], query@),
            ),
            !old(self)@.dom().contains(table_name@) ==> out == Err::<(), SchemaError>(
                SchemaError::TableMissing,
            ) && final(self)@ == old(self)@,
    {
        self.process_queue(QueueItem::Delete(table_name, query))
    }

    /// Carries out one change, at once and completely, or refuses it where
    /// its table is missing.
    pub fn process_queue(&mut self, request: QueueItem) -> (out: Result<(), SchemaError>)
        requires
            old(self).wf(),
        ensures
            final(self).wf(),
            final(self).path() == old(self).path(),
            final(self).secret() == old(self).secret(),
            old(self)@.dom().contains(target(request)) ==> out == Ok::<(), SchemaError>(())
                && final(self)@ == applied(old(self)@, request),
            !old(self)@.dom().contains(target(request)) ==> out == Err::<(), SchemaError>(
                SchemaError::TableMissing,
            ) && final(self)@ == old(self)@,
    {
        match &request {
            QueueItem::Insert(table, record) => self.insert_table(table, record),
            QueueItem::Update(table, query, new_data) => self.update_table(table, query, new_data),
            QueueItem::Delete(table, query) => self.delete_from_table(table, query),
        }
    }

    /// Appends the projection of `record` to the table of that name.
    pub fn insert_table(&mut self, table_name: &String, record: &Record) -> (out: Result<
        (),
        SchemaError,
    >)
        requires
            old(self).wf(),
        ensures
            final(self).wf(),
            final(self).path() == old(self).path(),
            final(self).secret() == old(self).secret(),
            old(self)@.dom().contains(table_name@) ==> out == Ok::<(), SchemaError>(())
                && final(self)@ == old(self)@.insert(
                table_name@,
                inserted(old(self)@[table_name@], record@),
            ),
            !old(self)@.dom().contains(table_name@) ==> out == Err::<(), SchemaError>(
                SchemaError::TableMissing,
            ) && final(self)@ == old(self)@,
    {
        match self.find(table_name.as_str()) {
            None => Err(SchemaError::TableMissing),
            Some(at) => {
                let ghost before = self.entries();
                self.tables[at].insert(record);
                proof {
                    let t = inserted(before[at as int].1, record@);
                    assert(self.entries() =~= before.update(at as int, (before[at as int].0, t)));
                    lemma_map_update(before, at as int, t);
                }
                Ok(())
            },
        }
    }

    /// In the table of that name, lays `new_data` over every row that
    /// satisfies `query`.
    pub fn update_table(&mut self, table_name: &String, query: &Record, new_data: &Record) -> (out:
        Result<(), SchemaError>)
        requires
            old(self).wf(),
        ensures
            final(self).wf(),
            final(self).path() == old(self).path(),
            final(self).secret() == old(self).secret(),
            old(self)@.dom().contains(table_name@) ==> out == Ok::<(), SchemaError>(())
                && final(self)@ == old(self)@.insert(
                table_name@,
                updated(old(self)@[table_name@], query@, new_data@),
            ),
            !old(self)@.dom().contains(table_name@) ==> out == Err::<(), SchemaError>(
                SchemaError::TableMissing,
            ) && final(self)@ == old(self)@,
    {
        match self.find(table_name.as_str()) {
            None => Err(SchemaError::TableMissing),
            Some(at) => {
                let ghost before = self.entries();
                self.tables[at].update(query, new_data);
                proof {
                    let t = updated(before[at as int].1, query@, new_data@);
                    assert(self.entries() =~= before.update(at as int, (before[at as int].0, t)));
                    lemma_map_update(before, at as int, t);
                }
                Ok(())
            },
        }
    }

    /// In the table of that name, removes every row that satisfies `query`.
    pub fn delete_from_table(&mut self, table_name: &String, query: &Record) -> (out: Result<
        (),
        SchemaError,
    >)
        requires
            old(self).wf(),
        ensures
            final(self).wf(),
            final(self).path() == old(self).path(),
            final(self).secret() == old(self).secret(),
            old(self)@.dom().contains(table_name@) ==> out == Ok::<(), SchemaError>(())
                && final(self)@ == old(self)@.insert(
                table_name@,
                deleted(old(self)@[table_name@], query@),
            ),
            !old(self)@.dom().contains(table_name@) ==> out == Err::<(), SchemaError>(
                SchemaError::TableMissing,
            ) && final(self)@ == old(self)@,
    {
        match self.find(table_name.as_str()) {
            None => Err(SchemaError::TableMissing),
            Some(at) => {
                let ghost before = self.entries();
                self.tables[at].delete(query);
                proof {
                    let t = deleted(before[at as int].1, query@);
                    assert(self.entries() =~= before.update(at as int, (before[at as int].0, t)));
                    lemma_map_update(before, at as int, t);
                }
                Ok(())
            },
        }
    }

    /// Puts a table under a name, in the place of the one that has it or as
    /// a new one.
    fn put(&mut self, table_name: String, table: Table)
        requires
            old(self).wf(),
            table.wf(),
        ensures
            final(self).wf(),
            final(self).path() == old(self).path(),
            final(self).secret() == old(self).secret(),
            final(self)@ == old(self)@.insert(table_name@, table@),
    {
        let ghost before = self.entries();
        let ghost name = table_name@;
        match self.find(table_name.as_str()) {
            Some(at) => {
                self.tables[at] = table;
                proof {
                    assert(self.entries() =~= before.update(at as int, (before[at as int].0, table@)));
                    lemma_map_update(before, at as int, table@);
                }
            },
            None => {
                proof {
                    if exists|i: int| 0 <= i < before.len() && (#[trigger] before[i]).0 == name {
                        let i = choose|i: int| 0 <= i < before.len() && (#[trigger] before[i]).0 == name;
                        lemma_map_present(before, i);
                    }
                }
                self.names.push(table_name);
                self.tables.push(table);
                proof {
                    let after = self.entries();
                    assert(after =~= before.push((name, table@)));
                    assert(after.drop_last() =~= before);
                    assert forall|i: int, j: int|
                        0 <= i < after.len() && 0 <= j < after.len() && i != j implies (
                    #[trigger] after[i]).0 != (#[trigger] after[j]).0 by {
                        if i < before.len() {
                            assert(after[i] == before[i]);
                        }
                        if j < before.len() {
                            assert(after[j] == before[j]);
                        }
                    }
                }
            },
        }
    }

    /// Puts the tables given in the place of those held; where a name comes
    /// twice, the later table stays.
    pub fn replace_tables(&mut self, tables: &Vec<(String, Table)>)
        requires
            forall|i: int| 0 <= i < tables@.len() ==> (#[trigger] tables@[i]).1.wf(),
        ensures
            final(self).wf(),
            final(self).path() == old(self).path(),
            final(self).secret() == old(self).secret(),
            final(self)@ == table_map(named_tables(tables@)),
    {
        self.names = Vec::new();
        self.tables = Vec::new();
        let ghost all = named_tables(tables@);
        assert(self.entries() =~= Seq::<(Seq<char>, TableView)>::empty());
        assert(all.subrange(0, 0) =~= Seq::<(Seq<char>, TableView)>::empty());
        let mut i: usize = 0;
        while i < tables.len()
            invariant
                i <= tables@.len(),
                all == named_tables(tables@),
                forall|k: int| 0 <= k < tables@.len() ==> (#[trigger] tables@[k]).1.wf(),
                self.wf(),
                self.path() == old(self).path(),
                self.secret() == old(self).secret(),
                self@ == table_map(all.subrange(0, i as int)),
            decreases tables@.len() - i,
        {
            let name = tables[i].0.clone();
            let table = tables[i].1.copy();
            proof {
                let next = all.subrange(0, i + 1);
                assert(next.drop_last() =~= all.subrange(0, i as int));
                assert(next.last() == all[i as int]);
                assert(tables@[i as int].1.wf());
            }
            self.put(name, table);
            i += 1;
        }
        assert(all.subrange(0, i as int) =~= all);
    }

    /// Copies of the tables held, each with its name.
    pub fn tables(&self) -> (out: Vec<(String, Table)>)
        requires
            self.wf(),
        ensures
            named_tables(out@) == self.entries(),
            distinct_names(named_tables(out@)),
            table_map(named_tables(out@)) == self@,
            forall|i: int| 0 <= i < out@.len() ==> (#[trigger] out@[i]).1.wf(),
    {
        let mut out: Vec<(String, Table)> = Vec::new();
        let mut i: usize = 0;
        while i < self.names.len()
            invariant
                i <= self.names@.len(),
                self.wf(),
                out@.len() == i,
                forall|j: int|
                    0 <= j < i ==> (#[trigger] out@[j]).0@ == self.names@[j]@ && out@[j].1@
                        == self.tables@[j]@,
            decreases self.names@.len() - i,
        {
            out.push((self.names[i].clone(), self.tables[i].copy()));
            i += 1;
        }
        proof {
            assert(named_tables(out@) =~= self.entries());
            assert forall|j: int| 0 <= j < out@.len() implies (#[trigger] out@[j]).1.wf() by {
                assert(self.tables@[j].wf());
            }
        }
        out
    }

    /// Takes over what was found at the file path. Whatever was held before
    /// is dropped: the file decides. Where a file was there and could not be
    /// read, the database is left without tables and the reason is reported.
    pub fn load(&mut self, found: Found) -> (out: Result<(), LoadError>)
        requires
            sound(found),
        ensures
            final(self).wf(),
            final(self).path() == old(self).path(),
            final(self).secret() == old(self).secret(),
            final(self)@ == restored(found),
            out == report(found),
    {
        match found {
            Found::Tables(list) => {
                self.replace_tables(&list);
                Ok(())
            },
            Found::Nothing => {
                self.replace_tables(&Vec::new());
                Ok(())
            },
            Found::Unreadable(e) => {
                self.replace_tables(&Vec::new());
                Err(LoadError::Decode(e))
            },
            Found::Unstructured => {
                self.replace_tables(&Vec::new());
                Err(LoadError::Structure)
            },
        }
    }

    /// Whether a call may go on to the file: refused is one that would
    /// change tables of a database that cannot be kept at its path.
    pub fn permit(&self, request: &Request) -> (out: Result<(), EngineError>)
        ensures
            out == if mutates(*request) && !self.storable() {
                Err::<(), EngineError>(EngineError::Config(ConfigError::BadExtension))
            } else {
                Ok::<(), EngineError>(())
            },
    {
        let changes = match request {
            Request::Select(_, _) => false,
            _ => true,
        };
        if changes && !self.can_store() {
            Err(EngineError::Config(ConfigError::BadExtension))
        } else {
            Ok(())
        }
    }

    /// Carries out one call on what was found at the file path.
    ///
    /// A call that would change tables is refused, before anything else is
    /// looked at, where the database cannot be kept at its path. Otherwise the
    /// database first takes over what was found, so that the call sees what
    /// the file holds, and not what an earlier call left. The call is then
    /// carried out on those tables, or refused where it does not fit them.
    /// `Reply::Changed` comes back exactly for a change that was made; it
    /// tells the caller to write the tables back before it returns.
    pub fn execute(&mut self, found: Found, request: Request) -> (out: Result<Reply, EngineError>)
        requires
            old(self).wf(),
            sound(found),
        ensures
            final(self).wf(),
            final(self).path() == old(self).path(),
            final(self).secret() == old(self).secret(),
            mutates(request) && !old(self).storable() ==> out == Err::<Reply, EngineError>(
                EngineError::Config(ConfigError::BadExtension),
            ) && final(self)@ == old(self)@,
            !mutates(request) || old(self).storable() ==> final(self)@ == state_after(found, request)
                && owed(found, request, out),
    {
        match self.permit(&request) {
            Err(e) => {
                return Err(e);
            },
            Ok(()) => {},
        }
        match self.load(found) {
            Err(e) => {
                return Err(EngineError::Load(e));
            },
            Ok(()) => {},
        }
        match request {
            Request::CreateTable(name, columns) => match self.create_table(name, columns) {
                Ok(()) => Ok(Reply::Changed),
                Err(e) => Err(EngineError::Schema(e)),
            },
            Request::DeleteTable(name) => match self.delete_table(name) {
                Ok(()) => Ok(Reply::Changed),
                Err(e) => Err(EngineError::Schema(e)),
            },
            Request::Change(item) => match self.process_queue(item) {
                Ok(()) => Ok(Reply::Changed),
                Err(e) => Err(EngineError::Schema(e)),
            },
            Request::Select(name, query) => match self.select(name, query) {
                Ok(rows) => Ok(Reply::Rows(rows)),
                Err(e) => Err(EngineError::Schema(e)),
            },
        }
    }

    /// Whether the file path ends in `.ht`, so that the database can be
    /// kept there.
    pub fn can_store(&self) -> (out: bool)
        ensures
            out == self.storable(),
    {
        proof {
            lemma_suffix_bytes();
        }
        has_suffix(self.file_path.as_str(), ".ht")
    }

    /// The text to keep at the file path for a payload: the payload sealed
    /// under the secret with a fresh nonce. Refused where the path does not
    /// end in `.ht`.
    pub fn seal_payload(&self, payload: &[u8]) -> (out: Result<String, ConfigError>)
        ensures
            match out {
                Ok(content) => self.storable() && exists|nonce: Seq<u8>|
                    nonce.len() == 12 && content@ == #[trigger] sealed_text(
                        self.key(),
                        nonce,
                        payload@,
                    ),
                Err(e) => !self.storable() && e == ConfigError::BadExtension,
            },
    {
        if !self.can_store() {
            return Err(ConfigError::BadExtension);
        }
        let secret_text = self.password.as_str();
        let content = encrypt(payload, secret_text);
        proof {
            let secret = sized_key(secret_text.spec_bytes());
            let nonce = choose|nonce: Seq<u8>|
                nonce.len() == 12 && content@ == #[trigger] sealed_text(secret, nonce, payload@);
            assert(secret == self.key());
            assert(content@ == sealed_text(self.key(), nonce, payload@));
        }
        Ok(content)
    }

    /// The payload that a file's text holds under the secret. What
    /// `seal_payload` gave for a payload under the same secret opens to that
    /// payload.
    pub fn open_payload(&self, content: &str) -> (out: Result<Vec<u8>, DecodeError>)
        ensures
            same_outcome(out, opened(content.spec_bytes(), self.key())),
            forall|nonce: Seq<u8>, payload: Seq<u8>|
                nonce.len() == 12 && content@ == #[trigger] sealed_text(self.key(), nonce, payload)
                    ==> same_outcome(out, Ok(payload)),
    {
        decrypt(content, self.password.as_str())
    }
}

} // verus!
