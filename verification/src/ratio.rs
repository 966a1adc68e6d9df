//! Follow-ratio tables: the entries read from the configuration, the index of
//! every account, and one ratio table per symbol.
//!
//! A ratio table has a column (x) for each following account and a row (y)
//! for each followed account; the cell in row `fac` and column `ac` holds the
//! entry whose ratio says how `ac` follows `fac` for the table's symbol, so
//! column `ac` lists everything `ac` follows.

use vstd::prelude::*;
use std::collections::HashMap;
use crate::assoc::{
    find_key, has_key, keys_distinct, lemma_put, lemma_put_keys, lemma_to_map, pairs_view, put,
    put_key, to_map,
};
use crate::entry::{entry_key, AcEntry, EntryView, SYMBOL_ID_ALL};
use crate::matrix::{matrix_cells, matrix_dims, uniform_cells, RatioMatrix};
use crate::symbols::SymbolTable;

verus! {

broadcast use vstd::std_specs::hash::group_hash_axioms;

/// What a ratio table holds: its dimensions and, for each cell, the position
/// of the entry whose ratio it holds (`None` for no ratio).
#[verifier::ext_equal]
pub struct TableView {
    pub rows: nat,
    pub cols: nat,
    pub cells: Map<(int, int), Option<usize>>,
}

/// The cells of a table of the given dimensions.
pub open spec fn in_table(rows: nat, cols: nat, p: (int, int)) -> bool {
    0 <= p.0 < rows && 0 <= p.1 < cols
}

/// A table whose cells are exactly its `rows` by `cols` positions.
pub open spec fn table_wf(t: TableView) -> bool {
    forall|p: (int, int)| #[trigger] t.cells.contains_key(p) <==> in_table(t.rows, t.cols, p)
}

/// An `n` by `n` table with no ratio in any cell.
pub open spec fn empty_table(n: nat) -> TableView {
    TableView { rows: n, cols: n, cells: uniform_cells(n, n, None) }
}

/// One symbol's ratio table: column x is the following account, row y the
/// followed account.
pub struct AcRatioTable {
    matrix: RatioMatrix,
}

impl View for AcRatioTable {
    type V = TableView;

    closed spec fn view(&self) -> TableView {
        TableView {
            rows: matrix_dims(self.matrix).0,
            cols: matrix_dims(self.matrix).1,
            cells: matrix_cells(self.matrix),
        }
    }
}

impl AcRatioTable {
    /// An `n` by `m` table with no ratio in any cell.
    pub fn new(n: usize, m: usize) -> (t: Self)
        requires
            n <= isize::MAX,
            m <= isize::MAX,
            n * m * 16 <= isize::MAX,
        ensures
            t@ == (TableView { rows: n as nat, cols: m as nat, cells: uniform_cells(n as nat, m as nat, None) }),
    {
        AcRatioTable { matrix: RatioMatrix::from_elem(n, m, None) }
    }

    /// The matrix of the table.
    pub fn get_matrix(&self) -> (m: &RatioMatrix)
        ensures
            matrix_dims(*m) == (self@.rows, self@.cols),
            matrix_cells(*m) == self@.cells,
    {
        &self.matrix
    }

    /// The `(rows, columns)` of the table.
    pub fn dims(&self) -> (d: (usize, usize))
        ensures
            d.0 as nat == self@.rows,
            d.1 as nat == self@.cols,
    {
        self.matrix.dim()
    }

    /// The entry position held by the cell at `(row, col)`.
    pub fn get(&self, row: usize, col: usize) -> (v: Option<usize>)
        requires
            row < self@.rows,
            col < self@.cols,
        ensures
            v == self@.cells[(row as int, col as int)],
    {
        self.matrix.get(row, col)
    }

    fn get_matrix_mut(&mut self) -> (m: &mut RatioMatrix)
        ensures
            *m == old(self).matrix,
            final(self).matrix == *final(m),
    {
        &mut self.matrix
    }

    fn set(&mut self, row: usize, col: usize, v: Option<usize>)
        requires
            row < old(self)@.rows,
            col < old(self)@.cols,
        ensures
            final(self)@ == (TableView {
                rows: old(self)@.rows,
                cols: old(self)@.cols,
                cells: old(self)@.cells.insert((row as int, col as int), v),
            }),
    {
        self.matrix.set(row, col, v);
    }
}

impl std::ops::Deref for AcRatioTable {
    type Target = RatioMatrix;

    fn deref(&self) -> (m: &RatioMatrix)
        ensures
            matrix_dims(*m) == (self@.rows, self@.cols),
            matrix_cells(*m) == self@.cells,
    {
        &self.matrix
    }
}

/// An entry as kept in the set, with its key.
struct StoredEntry {
    key: String,
    entry: AcEntry,
}

/// The follow configuration of all symbols.
pub struct AcRatioTableSet {
    tables: HashMap<usize, AcRatioTable>,
    entries: Vec<StoredEntry>,
    entry_times: Vec<usize>,
    ac_indexes: Vec<(String, usize)>,
    ac_index_reversed: HashMap<usize, String>,
    ac_index_dispatch: Vec<usize>,
}

/// `x + 1`, held at `usize::MAX`.
pub open spec fn saturating_inc(x: usize) -> usize {
    if x < usize::MAX {
        (x + 1) as usize
    } else {
        x
    }
}

/// Some kept entry has the key `key`.
pub open spec fn has_entry_key(stored: Seq<(EntryView, usize)>, key: Seq<char>) -> bool {
    exists|i: int| 0 <= i < stored.len() && #[trigger] entry_key(stored[i].0) == key
}

/// The position of the kept entry with key `key` (where there is one).
pub open spec fn entry_key_index(stored: Seq<(EntryView, usize)>, key: Seq<char>) -> int {
    choose|i: int| 0 <= i < stored.len() && #[trigger] entry_key(stored[i].0) == key
}

/// The kept entries after adding `e`: an entry with the same key counts one
/// more addition (its ratio is added once more); otherwise `e` is appended.
pub open spec fn added_entries(stored: Seq<(EntryView, usize)>, e: EntryView) -> Seq<(EntryView, usize)> {
    if has_entry_key(stored, entry_key(e)) {
        let i = entry_key_index(stored, entry_key(e));
        stored.update(i, (stored[i].0, saturating_inc(stored[i].1)))
    } else {
        stored.push((e, 1))
    }
}

/// The account list after adding `e`: unchanged where an entry with the same
/// key is kept; otherwise both accounts of `e` are set to index 0.
pub open spec fn added_accounts(
    accounts: Seq<(Seq<char>, usize)>,
    stored: Seq<(EntryView, usize)>,
    e: EntryView,
) -> Seq<(Seq<char>, usize)> {
    if has_entry_key(stored, entry_key(e)) {
        accounts
    } else {
        put(put(accounts, e.ac, 0), e.fac, 0)
    }
}

/// The account list with each account given its position as index.
pub open spec fn indexed_accounts(accounts: Seq<(Seq<char>, usize)>) -> Seq<(Seq<char>, usize)> {
    Seq::new(accounts.len(), |i: int| (accounts[i].0, i as usize))
}

/// Each position mapped to the account at that position.
pub open spec fn reversed_accounts(accounts: Seq<(Seq<char>, usize)>) -> Map<usize, Seq<char>> {
    Map::new(|i: usize| i < accounts.len(), |i: usize| accounts[i as int].0)
}

/// No two kept entries have the same key.
pub open spec fn entry_keys_distinct(stored: Seq<(EntryView, usize)>) -> bool {
    forall|i: int, j: int|
        0 <= i < j < stored.len() ==> entry_key(#[trigger] stored[i].0) != entry_key(
            #[trigger] stored[j].0,
        )
}

/// Accounts are listed once each, with indexes below their number.
pub open spec fn accounts_wf(accounts: Seq<(Seq<char>, usize)>) -> bool {
    &&& keys_distinct(accounts)
    &&& forall|i: int| 0 <= i < accounts.len() ==> (#[trigger] accounts[i]).1 < accounts.len()
}

/// Both accounts of every kept entry are listed.
pub open spec fn links_wf(stored: Seq<(EntryView, usize)>, accounts: Seq<(Seq<char>, usize)>) -> bool {
    forall|i: int|
        0 <= i < stored.len() ==> has_key(accounts, (#[trigger] stored[i]).0.ac) && has_key(
            accounts,
            stored[i].0.fac,
        )
}

/// Every table has exactly its cells.
pub open spec fn tables_wf(tables: Map<usize, TableView>) -> bool {
    forall|s: usize| #[trigger] tables.contains_key(s) ==> table_wf(tables[s])
}

/// The value of `key` in an account list with distinct names.
fn lookup_index(list: &Vec<(String, usize)>, key: &str) -> (r: Option<usize>)
    requires
        keys_distinct(pairs_view(list@)),
    ensures
        r == (if to_map(pairs_view(list@)).contains_key(key@) {
            Some(to_map(pairs_view(list@))[key@])
        } else {
            None
        }),
{
    proof {
        lemma_to_map(pairs_view(list@));
    }
    let k = String::from_str(key);
    match find_key(list, &k) {
        Some(i) => {
            proof {
                assert(pairs_view(list@)[i as int].0 == key@);
            }
            Some(list[i].1)
        },
        None => None,
    }
}

/// Entry `e` applies to symbol `sym`: to every symbol of `ids` where its
/// symbol is `SYMBOL_ID_ALL`, else to its own symbol.
pub open spec fn covers(e: EntryView, ids: Seq<usize>, sym: usize) -> bool {
    if e.symbol == SYMBOL_ID_ALL {
        ids.contains(sym)
    } else {
        e.symbol == sym
    }
}

/// The kept entry at position `i` puts its ratio into cell `p` of symbol
/// `sym`'s table: it applies to `sym`, and `p` is (row: index of the followed
/// account, column: index of its own account).
pub open spec fn writes(
    stored: Seq<(EntryView, usize)>,
    index: Map<Seq<char>, usize>,
    ids: Seq<usize>,
    i: int,
    sym: usize,
    p: (int, int),
) -> bool {
    let e = stored[i].0;
    &&& covers(e, ids, sym)
    &&& index.contains_key(e.ac)
    &&& index.contains_key(e.fac)
    &&& p == (index[e.fac] as int, index[e.ac] as int)
}

/// The last of the first `upto` kept entries that puts its ratio into cell
/// `p` of symbol `sym`'s table.
pub open spec fn last_writer(
    stored: Seq<(EntryView, usize)>,
    index: Map<Seq<char>, usize>,
    ids: Seq<usize>,
    sym: usize,
    p: (int, int),
    upto: int,
) -> Option<usize>
    decreases upto,
{
    if upto <= 0 {
        None
    } else if writes(stored, index, ids, upto - 1, sym, p) {
        Some((upto - 1) as usize)
    } else {
        last_writer(stored, index, ids, sym, p, upto - 1)
    }
}

/// The table that `complete` starts from for `sym`: a new empty `n` by `n`
/// table for a symbol of `ids`, else the table it had.
pub open spec fn base_table(
    tables: Map<usize, TableView>,
    ids: Seq<usize>,
    n: nat,
    sym: usize,
) -> TableView {
    if ids.contains(sym) {
        empty_table(n)
    } else {
        tables[sym]
    }
}

/// `base` with the ratios of the first `upto` kept entries that apply to
/// `sym` put into their cells, a later entry over an earlier one.
pub open spec fn filled(
    base: TableView,
    stored: Seq<(EntryView, usize)>,
    index: Map<Seq<char>, usize>,
    ids: Seq<usize>,
    sym: usize,
    upto: int,
) -> TableView {
    TableView {
        rows: base.rows,
        cols: base.cols,
        cells: Map::new(
            |p: (int, int)| base.cells.contains_key(p),
            |p: (int, int)|
                match last_writer(stored, index, ids, sym, p, upto) {
                    Some(w) => Some(w),
                    None => base.cells[p],
                },
        ),
    }
}

/// The tables after `complete`: every symbol of `ids` gets a new `n` by `n`
/// table, and every table, new or old, gets the ratios of the kept entries
/// that apply to its symbol.
pub open spec fn completed_tables(
    tables: Map<usize, TableView>,
    stored: Seq<(EntryView, usize)>,
    index: Map<Seq<char>, usize>,
    ids: Seq<usize>,
    n: nat,
) -> Map<usize, TableView> {
    Map::new(
        |sym: usize| tables.contains_key(sym) || ids.contains(sym),
        |sym: usize| filled(base_table(tables, ids, n, sym), stored, index, ids, sym, stored.len() as int),
    )
}

/// Every kept entry whose own symbol is not in `ids` but has an old table fits
/// in that table (the cells it writes exist).
pub open spec fn old_tables_fit(
    tables: Map<usize, TableView>,
    stored: Seq<(EntryView, usize)>,
    index: Map<Seq<char>, usize>,
    ids: Seq<usize>,
) -> bool {
    forall|i: int|
        0 <= i < stored.len() ==> {
            let e = (#[trigger] stored[i]).0;
            (e.symbol != SYMBOL_ID_ALL && !ids.contains(e.symbol) && tables.contains_key(e.symbol))
                ==> index[e.fac] < tables[e.symbol].rows && index[e.ac] < tables[e.symbol].cols
        }
}

proof fn lemma_filled_zero(
    base: TableView,
    stored: Seq<(EntryView, usize)>,
    index: Map<Seq<char>, usize>,
    ids: Seq<usize>,
    sym: usize,
)
    ensures
        filled(base, stored, index, ids, sym, 0) == base,
{
    assert(filled(base, stored, index, ids, sym, 0).cells =~= base.cells);
}

/// Writing entry `i` into a cell it writes gives the table filled with the
/// first `i + 1` entries; writing it again into that table changes nothing.
proof fn lemma_filled_write(
    base: TableView,
    stored: Seq<(EntryView, usize)>,
    index: Map<Seq<char>, usize>,
    ids: Seq<usize>,
    sym: usize,
    i: int,
    p: (int, int),
)
    requires
        0 <= i < stored.len(),
        writes(stored, index, ids, i, sym, p),
        base.cells.contains_key(p),
    ensures
        filled(base, stored, index, ids, sym, i + 1) == (TableView {
            rows: base.rows,
            cols: base.cols,
            cells: filled(base, stored, index, ids, sym, i).cells.insert(p, Some(i as usize)),
        }),
        filled(base, stored, index, ids, sym, i + 1) == (TableView {
            rows: base.rows,
            cols: base.cols,
            cells: filled(base, stored, index, ids, sym, i + 1).cells.insert(p, Some(i as usize)),
        }),
{
    let f0 = filled(base, stored, index, ids, sym, i);
    let f1 = filled(base, stored, index, ids, sym, i + 1);
    assert(last_writer(stored, index, ids, sym, p, i + 1) == Some(i as usize));
    assert forall|q: (int, int)| q != p implies last_writer(stored, index, ids, sym, q, i + 1)
        == last_writer(stored, index, ids, sym, q, i) by {
        assert(!writes(stored, index, ids, i, sym, q));
    }
    assert(f1.cells =~= f0.cells.insert(p, Some(i as usize)));
    assert(f1.cells =~= f1.cells.insert(p, Some(i as usize)));
}

proof fn lemma_filled_skip(
    base: TableView,
    stored: Seq<(EntryView, usize)>,
    index: Map<Seq<char>, usize>,
    ids: Seq<usize>,
    sym: usize,
    i: int,
)
    requires
        0 <= i < stored.len(),
        !covers(stored[i].0, ids, sym),
    ensures
        filled(base, stored, index, ids, sym, i + 1) == filled(base, stored, index, ids, sym, i),
{
    assert forall|q: (int, int)|
        last_writer(stored, index, ids, sym, q, i + 1) == last_writer(
            stored,
            index,
            ids,
            sym,
            q,
            i,
        ) by {
        assert(!writes(stored, index, ids, i, sym, q));
    }
    assert(filled(base, stored, index, ids, sym, i + 1).cells =~= filled(
        base,
        stored,
        index,
        ids,
        sym,
        i,
    ).cells);
}

impl std::ops::Deref for AcRatioTableSet {
    type Target = HashMap<usize, AcRatioTable>;

    fn deref(&self) -> (t: &HashMap<usize, AcRatioTable>)
        ensures
            t@.dom() == self.table_views().dom(),
            forall|s: usize| #[trigger] t@.contains_key(s) ==> t@[s]@ == self.table_views()[s],
    {
        &self.tables
    }
}

impl Default for AcRatioTableSet {
    /// An empty set, as `new` makes it.
    fn default() -> (ts: Self)
        ensures
            ts.wf(),
            ts.stored() == Seq::<(EntryView, usize)>::empty(),
            ts.accounts() == Seq::<(Seq<char>, usize)>::empty(),
            ts.reversed() == Map::<usize, Seq<char>>::empty(),
            ts.table_views() == Map::<usize, TableView>::empty(),
            ts.dispatch() == Seq::<usize>::empty(),
    {
        AcRatioTableSet::new()
    }
}

proof fn lemma_take_push_contains(s: Seq<usize>, k: int)
    requires
        0 <= k < s.len(),
    ensures
        forall|y: usize| #[trigger] s.take(k + 1).contains(y) <==> (s.take(k).contains(y) || y == s[k]),
{
    assert(s.take(k + 1) =~= s.take(k).push(s[k]));
    assert forall|y: usize| #[trigger] s.take(k + 1).contains(y) <==> (s.take(k).contains(y) || y == s[k]) by {
        if s.take(k + 1).contains(y) {
            let q = choose|q: int| 0 <= q < k + 1 && #[trigger] s.take(k + 1)[q] == y;
            if q < k {
                assert(s.take(k)[q] == y);
            }
        }
        if s.take(k).contains(y) {
            let q = choose|q: int| 0 <= q < k && #[trigger] s.take(k)[q] == y;
            assert(s.take(k + 1)[q] == y);
        }
        if y == s[k] {
            assert(s.take(k + 1)[k] == y);
        }
    }
}

/// Whether `x` occurs in `ids`.
fn contains_id(ids: &Vec<usize>, x: usize) -> (r: bool)
    ensures
        r == ids@.contains(x),
{
    let n = ids.len();
    let mut i: usize = 0;
    while i < n
        invariant
            i <= n,
            n == ids@.len(),
            forall|j: int| 0 <= j < i ==> ids@[j] != x,
        decreases n - i,
    {
        if ids[i] == x {
            return true;
        }
        i = i + 1;
    }
    false
}

/// The indexes of a well-formed account list are below its length.
proof fn lemma_index_bound(accounts: Seq<(Seq<char>, usize)>, k: Seq<char>)
    requires
        accounts_wf(accounts),
        has_key(accounts, k),
    ensures
        to_map(accounts).contains_key(k),
        to_map(accounts)[k] < accounts.len(),
{
    lemma_to_map(accounts);
    let j = choose|j: int| 0 <= j < accounts.len() && #[trigger] accounts[j].0 == k;
    assert(to_map(accounts)[accounts[j].0] == accounts[j].1);
}

impl AcRatioTableSet {
    /// The kept entries with how many times each was added, in the order in
    /// which they were first added.
    pub closed spec fn stored(&self) -> Seq<(EntryView, usize)> {
        Seq::new(
            self.entries@.len(),
            |i: int| (self.entries@[i].entry@, self.entry_times@[i]),
        )
    }

    /// The accounts with their indexes, in the order in which they were first
    /// named.
    pub closed spec fn accounts(&self) -> Seq<(Seq<char>, usize)> {
        pairs_view(self.ac_indexes@)
    }

    /// The account of each index, as `build_index` last set it.
    pub closed spec fn reversed(&self) -> Map<usize, Seq<char>> {
        self.ac_index_reversed@.map_values(|s: String| s@)
    }

    /// The ratio table of each symbol.
    pub closed spec fn table_views(&self) -> Map<usize, TableView> {
        self.tables@.map_values(|t: AcRatioTable| t@)
    }

    /// The account indexes whose positions are sent out.
    pub closed spec fn dispatch(&self) -> Seq<usize> {
        self.ac_index_dispatch@
    }

    /// The index of each account.
    pub open spec fn account_index(&self) -> Map<Seq<char>, usize> {
        to_map(self.accounts())
    }

    /// Entries are kept once per key with at least one addition, accounts are
    /// listed once, every index is below the number of accounts, the accounts
    /// of every kept entry are listed, and every table has exactly its cells.
    pub closed spec fn wf(&self) -> bool {
        &&& self.entries_wf()
        &&& accounts_wf(self.accounts())
        &&& links_wf(self.stored(), self.accounts())
        &&& tables_wf(self.table_views())
    }

    /// Each kept entry carries its key, keys are distinct, each was added at
    /// least once.
    pub closed spec fn entries_wf(&self) -> bool {
        let stored = self.stored();
        &&& self.entry_times@.len() == self.entries@.len()
        &&& forall|i: int|
            0 <= i < self.entries@.len() ==> (#[trigger] self.entries@[i]).key@ == entry_key(
                self.entries@[i].entry@,
            )
        &&& entry_keys_distinct(stored)
        &&& forall|i: int| 0 <= i < stored.len() ==> (#[trigger] stored[i]).1 >= 1
    }

    /// An empty set: no entries, accounts or tables.
    pub fn new() -> (ts: Self)
        ensures
            ts.wf(),
            ts.stored() == Seq::<(EntryView, usize)>::empty(),
            ts.accounts() == Seq::<(Seq<char>, usize)>::empty(),
            ts.reversed() == Map::<usize, Seq<char>>::empty(),
            ts.table_views() == Map::<usize, TableView>::empty(),
            ts.dispatch() == Seq::<usize>::empty(),
    {
        let ts = AcRatioTableSet {
            tables: HashMap::new(),
            entries: Vec::new(),
            entry_times: Vec::new(),
            ac_indexes: Vec::new(),
            ac_index_reversed: HashMap::new(),
            ac_index_dispatch: Vec::new(),
        };
        assert(ts.stored() =~= Seq::<(EntryView, usize)>::empty());
        assert(ts.accounts() =~= Seq::<(Seq<char>, usize)>::empty());
        assert(ts.reversed() =~= Map::<usize, Seq<char>>::empty());
        assert(ts.table_views() =~= Map::<usize, TableView>::empty());
        ts
    }

    /// Leaves the set as it is.
    pub fn reset(&mut self) -> (r: &Self)
        ensures
            *final(self) == *old(self),
            *r == *old(self),
    {
        self
    }

    /// Adds a follow entry. An entry with the same key `ac_fac_ratio` that is
    /// already kept counts one more addition, so that its ratio is added once
    /// more; otherwise the entry is kept and both of its accounts are listed
    /// with index 0.
    pub fn add_entry(&mut self, en: AcEntry) -> (r: &Self)
        requires
            old(self).wf(),
        ensures
            *r == *final(self),
            final(self).wf(),
            final(self).stored() == added_entries(old(self).stored(), en@),
            final(self).accounts() == added_accounts(
                old(self).accounts(),
                old(self).stored(),
                en@,
            ),
            final(self).reversed() == old(self).reversed(),
            final(self).table_views() == old(self).table_views(),
            final(self).dispatch() == old(self).dispatch(),
    {
        let key = en.hash();
        let ghost stored = self.stored();
        let n = self.entries.len();
        let mut i: usize = 0;
        while i < n
            invariant
                i <= n,
                n == self.entries@.len(),
                *self == *old(self),
                self.wf(),
                stored == self.stored(),
                key@ == entry_key(en@),
                forall|j: int| 0 <= j < i ==> entry_key(#[trigger] stored[j].0) != key@,
            decreases n - i,
        {
            if self.entries[i].key == key {
                let t = self.entry_times[i];
                self.entry_times.set(i, t.saturating_add(1));
                proof {
                    assert(entry_key(stored[i as int].0) == key@);
                    assert(has_entry_key(stored, key@));
                    let j = entry_key_index(stored, key@);
                    if j != i {
                        if j < i {
                            assert(entry_key(stored[j].0) != entry_key(stored[i as int].0));
                        } else {
                            assert(entry_key(stored[i as int].0) != entry_key(stored[j].0));
                        }
                    }
                    assert(self.stored() =~= added_entries(stored, en@));
                    assert forall|j: int| 0 <= j < self.stored().len() implies (#[trigger] self.stored()[j]).0 == stored[j].0 && self.stored()[j].1 >= 1 by {
                        assert(stored[j].1 >= 1);
                    }
                    assert(self.entries_wf());
                    assert(accounts_wf(self.accounts()));
                    assert(links_wf(self.stored(), self.accounts()));
                    assert(tables_wf(self.table_views()));
                }
                return self;
            }
            i = i + 1;
        }
        proof {
            assert(!has_entry_key(stored, key@));
            lemma_put(self.accounts(), en.ac@, 0);
            lemma_put_keys(self.accounts(), en.ac@, 0);
            lemma_put(put(self.accounts(), en.ac@, 0), en.fac@, 0);
            lemma_put_keys(put(self.accounts(), en.ac@, 0), en.fac@, 0);
        }
        let ghost accounts = self.accounts();
        put_key(&mut self.ac_indexes, en.ac.clone(), 0);
        put_key(&mut self.ac_indexes, en.fac.clone(), 0);
        self.entries.push(StoredEntry { key, entry: en });
        self.entry_times.push(1);
        proof {
            let a2 = self.accounts();
            assert(self.stored() =~= added_entries(stored, en@));
            assert(a2 == added_accounts(accounts, stored, en@));
            assert(self.entries_wf());
            assert(accounts_wf(self.accounts()));
            assert(links_wf(self.stored(), self.accounts()));
            assert(tables_wf(self.table_views()));
            assert forall|j: int| 0 <= j < self.stored().len() - 1 implies (#[trigger] self.stored()[j]) == stored[j] by {
            }
            assert forall|j: int| 0 <= j < self.entries@.len() implies (#[trigger] self.entries@[j]).key@ == entry_key(self.entries@[j].entry@) by {
                if j < n {
                    assert(self.entries@[j] == old(self).entries@[j]);
                }
            }
            assert(a2.len() >= accounts.len());
            assert forall|j: int| 0 <= j < a2.len() implies (#[trigger] a2[j]).1 < a2.len() by {
                if a2[j].1 != 0 {
                    assert(has_key(accounts, a2[j].0));
                }
                assert(has_key(a2, en.fac@));
            }
        }
        self
    }

    /// Gives each listed account its position in the list as index, and
    /// records the account of each index.
    pub fn build_index(&mut self) -> (r: &mut Self)
        requires
            old(self).wf(),
        ensures
            r.wf(),
            r.accounts() == indexed_accounts(old(self).accounts()),
            r.reversed() == reversed_accounts(old(self).accounts()),
            r.stored() == old(self).stored(),
            r.table_views() == old(self).table_views(),
            r.dispatch() == old(self).dispatch(),
            *final(self) == *final(r),
    {
        let ghost accounts = self.accounts();
        let n = self.ac_indexes.len();
        let mut temp_indexes: Vec<(String, usize)> = Vec::new();
        let mut temp_index_reversed: HashMap<usize, String> = HashMap::new();
        let mut i: usize = 0;
        while i < n
            invariant
                i <= n,
                n == self.ac_indexes@.len(),
                accounts == self.accounts(),
                pairs_view(temp_indexes@) =~= indexed_accounts(accounts).take(i as int),
                forall|j: usize| #[trigger] temp_index_reversed@.contains_key(j) <==> j < i,
                forall|j: usize| j < i ==> #[trigger] temp_index_reversed@[j]@ == accounts[j as int].0,
            decreases n - i,
        {
            let name = self.ac_indexes[i].0.clone();
            let ghost old_pairs = pairs_view(temp_indexes@);
            let ghost old_rev = temp_index_reversed@;
            proof {
                assert(name@ == accounts[i as int].0);
            }
            temp_indexes.push((name.clone(), i));
            temp_index_reversed.insert(i, name);
            proof {
                assert(pairs_view(temp_indexes@) =~= old_pairs.push((accounts[i as int].0, i)));
                assert(indexed_accounts(accounts).take(i + 1) =~= indexed_accounts(accounts).take(
                    i as int,
                ).push((accounts[i as int].0, i)));
                assert(temp_index_reversed@ == old_rev.insert(i, name));
            }
            i = i + 1;
        }
        self.ac_indexes = temp_indexes;
        self.ac_index_reversed = temp_index_reversed;
        proof {
            let a2 = self.accounts();
            assert(indexed_accounts(accounts).take(n as int) =~= indexed_accounts(accounts));
            assert(self.reversed() =~= reversed_accounts(accounts)) by {
                assert forall|j: usize| #[trigger] self.reversed().contains_key(j) implies self.reversed()[j] == reversed_accounts(accounts)[j] by {
                    assert(self.ac_index_reversed@[j]@ == accounts[j as int].0);
                }
            }
            assert forall|k: Seq<char>| #[trigger] has_key(a2, k) <==> has_key(accounts, k) by {
                if has_key(a2, k) {
                    let j = choose|j: int| 0 <= j < a2.len() && #[trigger] a2[j].0 == k;
                    assert(accounts[j].0 == k);
                }
                if has_key(accounts, k) {
                    let j = choose|j: int| 0 <= j < accounts.len() && #[trigger] accounts[j].0 == k;
                    assert(a2[j].0 == k);
                }
            }
            assert forall|x: int, y: int| 0 <= x < y < a2.len() implies #[trigger] a2[x].0
                != #[trigger] a2[y].0 by {
                assert(a2[x].0 == accounts[x].0);
                assert(a2[y].0 == accounts[y].0);
            }
            assert(self.entries_wf());
            assert(accounts_wf(self.accounts()));
            assert(links_wf(self.stored(), self.accounts()));
            assert(tables_wf(self.table_views()));
        }
        self
    }

    /// Allocates a new empty `n` by `n` table (`n` accounts) for every symbol
    /// of `symbols`, then puts the ratio of every kept entry, in the order the
    /// entries were first added, into the cell (row: index of the followed
    /// account, column: index of its account) of the table of every symbol it
    /// applies to.
    pub fn complete(&mut self, symbols: &SymbolTable) -> (r: &Self)
        requires
            old(self).wf(),
            symbols.ids().len() > 0 ==> old(self).accounts().len() * old(self).accounts().len()
                * 16 <= isize::MAX,
            old_tables_fit(
                old(self).table_views(),
                old(self).stored(),
                old(self).account_index(),
                symbols.ids(),
            ),
        ensures
            *r == *final(self),
            final(self).wf(),
            final(self).table_views() == completed_tables(
                old(self).table_views(),
                old(self).stored(),
                old(self).account_index(),
                symbols.ids(),
                old(self).accounts().len(),
            ),
            final(self).stored() == old(self).stored(),
            final(self).accounts() == old(self).accounts(),
            final(self).reversed() == old(self).reversed(),
            final(self).dispatch() == old(self).dispatch(),
    {
        let n = self.ac_indexes.len();
        let ids = symbols.all_ids();
        let ghost idsv = ids@;
        let ghost old_t = self.table_views();
        let ghost stored = self.stored();
        let ghost index = self.account_index();
        let ghost accounts = self.accounts();
        proof {
            assert forall|sym: usize| #[trigger] self.tables@.contains_key(sym) implies self.tables@[sym]@ == old_t[sym] by {
            }
        }
        let mut k: usize = 0;
        while k < ids.len()
            invariant
                k <= ids@.len(),
                ids@ == idsv,
                idsv.len() > 0 ==> n * n * 16 <= isize::MAX,
                n == accounts.len(),
                self.entries@ == old(self).entries@,
                self.entry_times@ == old(self).entry_times@,
                self.ac_indexes@ == old(self).ac_indexes@,
                self.ac_index_reversed@ == old(self).ac_index_reversed@,
                self.ac_index_dispatch@ == old(self).ac_index_dispatch@,
                forall|sym: usize| #[trigger] self.tables@.contains_key(sym) <==> (old_t.contains_key(sym) || idsv.take(k as int).contains(sym)),
                forall|sym: usize| #[trigger] self.tables@.contains_key(sym) ==> self.tables@[sym]@ == (if idsv.take(k as int).contains(sym) { empty_table(n as nat) } else { old_t[sym] }),
            decreases ids@.len() - k,
        {
            proof {
                assert(n * n * 16 <= isize::MAX ==> n <= isize::MAX) by (nonlinear_arith);
            }
            let t = AcRatioTable::new(n, n);
            let sym_k = ids[k];
            self.tables.insert(sym_k, t);
            proof {
                lemma_take_push_contains(idsv, k as int);
                assert(t@ =~= empty_table(n as nat));
            }
            k = k + 1;
        }
        proof {
            assert(idsv.take(k as int) =~= idsv);
            assert forall|sym: usize| #[trigger] self.tables@.contains_key(sym) implies self.tables@[sym]@ == filled(base_table(old_t, idsv, n as nat, sym), stored, index, idsv, sym, 0) by {
                lemma_filled_zero(base_table(old_t, idsv, n as nat, sym), stored, index, idsv, sym);
            }
        }
        let m = self.entries.len();
        let mut i: usize = 0;
        while i < m
            invariant
                i <= m,
                m == stored.len(),
                ids@ == idsv,
                idsv == symbols.ids(),
                n == accounts.len(),
                stored == self.stored(),
                accounts == self.accounts(),
                index == to_map(accounts),
                self.entries_wf(),
                accounts_wf(accounts),
                links_wf(stored, accounts),
                tables_wf(old_t),
                old_tables_fit(old_t, stored, index, idsv),
                self.entries@ == old(self).entries@,
                self.entry_times@ == old(self).entry_times@,
                self.ac_indexes@ == old(self).ac_indexes@,
                self.ac_index_reversed@ == old(self).ac_index_reversed@,
                self.ac_index_dispatch@ == old(self).ac_index_dispatch@,
                forall|sym: usize| #[trigger] self.tables@.contains_key(sym) <==> (old_t.contains_key(sym) || idsv.contains(sym)),
                forall|sym: usize| #[trigger] self.tables@.contains_key(sym) ==> self.tables@[sym]@ == filled(base_table(old_t, idsv, n as nat, sym), stored, index, idsv, sym, i as int),
            decreases m - i,
        {
            let sym_e = self.entries[i].entry.symbol;
            let syms: Vec<usize> = if sym_e == SYMBOL_ID_ALL {
                symbols.all_ids()
            } else {
                vec![sym_e]
            };
            let row_opt = lookup_index(&self.ac_indexes, self.entries[i].entry.fac.as_str());
            let col_opt = lookup_index(&self.ac_indexes, self.entries[i].entry.ac.as_str());
            let ghost e = stored[i as int].0;
            proof {
                assert(stored[i as int].0 == self.entries@[i as int].entry@);
                assert(has_key(accounts, e.ac) && has_key(accounts, e.fac));
                lemma_index_bound(accounts, e.ac);
                lemma_index_bound(accounts, e.fac);
                assert forall|sym: usize| #[trigger] syms@.contains(sym) <==> covers(e, idsv, sym) by {
                    if sym_e != SYMBOL_ID_ALL {
                        if syms@.contains(sym) {
                            let q = choose|q: int| 0 <= q < syms@.len() && #[trigger] syms@[q] == sym;
                        }
                        if sym == sym_e {
                            assert(syms@[0] == sym);
                        }
                    }
                }
            }
            let row = match row_opt { Some(r) => r, None => 0 };
            let col = match col_opt { Some(c) => c, None => 0 };
            let ghost p = (row as int, col as int);
            let mut j: usize = 0;
            while j < syms.len()
                invariant
                    j <= syms@.len(),
                    i < m,
                    m == stored.len(),
                    n == accounts.len(),
                    index == to_map(accounts),
                    e == stored[i as int].0,
                    index.contains_key(e.ac) && index.contains_key(e.fac),
                    row == index[e.fac],
                    col == index[e.ac],
                    row < n && col < n,
                    p == (row as int, col as int),
                    tables_wf(old_t),
                    self.entries@ == old(self).entries@,
                    self.entry_times@ == old(self).entry_times@,
                    self.ac_indexes@ == old(self).ac_indexes@,
                    self.ac_index_reversed@ == old(self).ac_index_reversed@,
                    self.ac_index_dispatch@ == old(self).ac_index_dispatch@,
                    old_tables_fit(old_t, stored, index, idsv),
                    forall|sym: usize| #[trigger] syms@.contains(sym) <==> covers(e, idsv, sym),
                    forall|sym: usize| #[trigger] self.tables@.contains_key(sym) <==> (old_t.contains_key(sym) || idsv.contains(sym)),
                    forall|sym: usize| #[trigger] self.tables@.contains_key(sym) ==> self.tables@[sym]@ == (if syms@.take(j as int).contains(sym) {
                        filled(base_table(old_t, idsv, n as nat, sym), stored, index, idsv, sym, i + 1)
                    } else {
                        filled(base_table(old_t, idsv, n as nat, sym), stored, index, idsv, sym, i as int)
                    }),
                decreases syms@.len() - j,
            {
                let sym = syms[j];
                proof {
                    lemma_take_push_contains(syms@, j as int);
                    assert(syms@.contains(sym));
                }
                match self.tables.remove(&sym) {
                    Some(mut t) => {
                        proof {
                            let base = base_table(old_t, idsv, n as nat, sym);
                            assert(writes(stored, index, idsv, i as int, sym, p));
                            if !idsv.contains(sym) {
                                assert(e.symbol == sym);
                                assert(old_t.contains_key(sym));
                                assert(table_wf(old_t[sym]));
                            }
                            assert(in_table(base.rows, base.cols, p));
                            assert(base.cells.contains_key(p));
                            lemma_filled_write(base, stored, index, idsv, sym, i as int, p);
                        }
                        t.set(row, col, Some(i));
                        self.tables.insert(sym, t);
                    },
                    None => {},
                }
                j = j + 1;
            }
            proof {
                assert(syms@.take(syms@.len() as int) =~= syms@);
                assert forall|sym: usize| #[trigger] self.tables@.contains_key(sym) implies self.tables@[sym]@ == filled(base_table(old_t, idsv, n as nat, sym), stored, index, idsv, sym, i + 1) by {
                    if !syms@.contains(sym) {
                        lemma_filled_skip(base_table(old_t, idsv, n as nat, sym), stored, index, idsv, sym, i as int);
                    }
                }
            }
            i = i + 1;
        }
        proof {
            let done = completed_tables(old_t, stored, index, idsv, n as nat);
            assert(self.table_views() =~= done) by {
                assert forall|sym: usize| #[trigger] self.table_views().contains_key(sym) implies self.table_views()[sym] == done[sym] by {
                }
            }
            assert forall|sym: usize| #[trigger] self.table_views().contains_key(sym) implies table_wf(self.table_views()[sym]) by {
                let base = base_table(old_t, idsv, n as nat, sym);
                assert(table_wf(base));
            }
            assert(self.entries_wf());
            assert(accounts_wf(self.accounts()));
            assert(links_wf(self.stored(), self.accounts()));
            assert(tables_wf(self.table_views()));
        }
        self
    }

    /// Whether `complete` can run with `symbols`: the new tables can be
    /// allocated, and every kept entry whose own symbol has an old table but
    /// no new one fits in that table.
    pub fn fits_complete(&self, symbols: &SymbolTable) -> (r: bool)
        requires
            self.wf(),
        ensures
            r == ((symbols.ids().len() > 0 ==> self.accounts().len() * self.accounts().len() * 16
                <= isize::MAX) && old_tables_fit(
                self.table_views(),
                self.stored(),
                self.account_index(),
                symbols.ids(),
            )),
    {
        let n = self.ac_indexes.len();
        let ids = symbols.all_ids();
        if ids.len() > 0 {
            let limit = isize::MAX as usize;
            match n.checked_mul(n) {
                Some(nn) => match nn.checked_mul(16) {
                    Some(bytes) => {
                        if bytes > limit {
                            return false;
                        }
                    },
                    None => {
                        return false;
                    },
                },
                None => {
                    proof {
                        assert(n * n * 16 >= n * n) by (nonlinear_arith);
                    }
                    return false;
                },
            }
        }
        let ghost stored = self.stored();
        let ghost index = self.account_index();
        let ghost tv = self.table_views();
        let m = self.entries.len();
        let mut i: usize = 0;
        while i < m
            invariant
                i <= m,
                m == stored.len(),
                self.wf(),
                stored == self.stored(),
                index == self.account_index(),
                tv == self.table_views(),
                ids@ == symbols.ids(),
                forall|j: int|
                    0 <= j < i ==> {
                        let e = (#[trigger] stored[j]).0;
                        (e.symbol != SYMBOL_ID_ALL && !ids@.contains(e.symbol) && tv.contains_key(
                            e.symbol,
                        )) ==> index[e.fac] < tv[e.symbol].rows && index[e.ac] < tv[e.symbol].cols
                    },
            decreases m - i,
        {
            let sym = self.entries[i].entry.symbol;
            proof {
                assert(stored[i as int].0 == self.entries@[i as int].entry@);
            }
            if sym != SYMBOL_ID_ALL && !contains_id(&ids, sym) {
                match self.tables.get(&sym) {
                    Some(t) => {
                        let (rows, cols) = t.dims();
                        let row = lookup_index(&self.ac_indexes, self.entries[i].entry.fac.as_str());
                        let col = lookup_index(&self.ac_indexes, self.entries[i].entry.ac.as_str());
                        proof {
                            let e = stored[i as int].0;
                            assert(has_key(self.accounts(), e.ac) && has_key(self.accounts(), e.fac));
                            lemma_index_bound(self.accounts(), e.ac);
                            lemma_index_bound(self.accounts(), e.fac);
                            assert(tv.contains_key(sym));
                        }
                        match (row, col) {
                            (Some(r), Some(c)) => {
                                if r >= rows || c >= cols {
                                    return false;
                                }
                            },
                            _ => {},
                        }
                    },
                    None => {},
                }
            }
            i = i + 1;
        }
        true
    }

    /// The index of account `ac`, if it is listed.
    pub fn get_ac_index(&self, ac: &str) -> (r: Option<usize>)
        requires
            self.wf(),
        ensures
            r == (if self.account_index().contains_key(ac@) {
                Some(self.account_index()[ac@])
            } else {
                None
            }),
    {
        lookup_index(&self.ac_indexes, ac)
    }

    /// The name of an account index; no name is kept here, so it is empty.
    pub fn get_ac_name(&self, index: usize) -> (name: String)
        ensures
            name@ == Seq::<char>::empty(),
    {
        String::new()
    }

    /// The index of a symbol name; symbols are not indexed here, so it is 0.
    pub fn get_symbol_index(&self, symbol: &str) -> (index: usize)
        ensures
            index == 0,
    {
        0
    }

    /// The name of a symbol index; no name is kept here, so it is empty.
    pub fn get_symbol_name(&self, index: usize) -> (name: String)
        ensures
            name@ == Seq::<char>::empty(),
    {
        String::new()
    }

    /// `(number of symbols, rows, columns)`: one table per symbol of
    /// `symbols`, with a row and a column per listed account.
    pub fn get_dim(&self, symbols: &SymbolTable) -> (d: (usize, usize, usize))
        ensures
            d.0 == symbols.ids().len(),
            d.1 == self.accounts().len(),
            d.2 == self.accounts().len(),
    {
        let cols = self.ac_indexes.len();
        let rows = self.ac_indexes.len();
        (symbols.all_ids().len(), cols, rows)
    }

    /// The number of kept entries.
    pub fn entry_count(&self) -> (n: usize)
        ensures
            n == self.stored().len(),
    {
        self.entries.len()
    }

    /// The kept entry at position `i` and how many times it was added; its
    /// ratio counts that many times.
    pub fn entry(&self, i: usize) -> (r: (&AcEntry, usize))
        requires
            self.wf(),
            i < self.stored().len(),
        ensures
            r.0@ == self.stored()[i as int].0,
            r.1 == self.stored()[i as int].1,
    {
        (&self.entries[i].entry, self.entry_times[i])
    }

    /// The account indexes whose positions are sent out.
    pub fn dispatch_indexes(&self) -> (d: &Vec<usize>)
        ensures
            d@ == self.dispatch(),
    {
        &self.ac_index_dispatch
    }
}

} // verus!

verus! {

/// Adding the same entry twice to entries that do not hold its key keeps it
/// once, counted twice (its ratio is added twice), and lists its accounts as
/// adding it once does.
pub proof fn lemma_add_entry_twice(
    stored: Seq<(EntryView, usize)>,
    accounts: Seq<(Seq<char>, usize)>,
    e: EntryView,
)
    requires
        !has_entry_key(stored, entry_key(e)),
    ensures
        added_entries(added_entries(stored, e), e) == stored.push((e, 2)),
        added_accounts(
            added_accounts(accounts, stored, e),
            added_entries(stored, e),
            e,
        ) == added_accounts(accounts, stored, e),
{
    let once = added_entries(stored, e);
    assert(once == stored.push((e, 1usize)));
    assert(entry_key(once[stored.len() as int].0) == entry_key(e));
    assert(has_entry_key(once, entry_key(e)));
    let i = entry_key_index(once, entry_key(e));
    if i != stored.len() {
        assert(entry_key(stored[i].0) == entry_key(e));
    }
    assert(added_entries(once, e) =~= stored.push((e, 2usize)));
}

/// Adding two entries of the same accounts whose ratio texts differ keeps
/// both, each added once, in the order they were added.
pub proof fn lemma_add_different_ratios(e1: EntryView, e2: EntryView)
    requires
        e1.ac == e2.ac,
        e1.fac == e2.fac,
        e1.ratio != e2.ratio,
    ensures
        added_entries(added_entries(Seq::<(EntryView, usize)>::empty(), e1), e2) == seq![
            (e1, 1usize),
            (e2, 1usize),
        ],
{
    crate::entry::lemma_entry_key_separates_ratios(e1, e2);
    let empty = Seq::<(EntryView, usize)>::empty();
    assert(!has_entry_key(empty, entry_key(e1)));
    let once = added_entries(empty, e1);
    assert(once =~= seq![(e1, 1usize)]);
    assert(!has_entry_key(once, entry_key(e2))) by {
        if has_entry_key(once, entry_key(e2)) {
            let i = choose|i: int| 0 <= i < once.len() && #[trigger] entry_key(once[i].0) == entry_key(e2);
            assert(i == 0);
        }
    }
    assert(added_entries(once, e2) =~= seq![(e1, 1usize), (e2, 1usize)]);
}

/// After `build_index`, the index of every account leads back to that account
/// through the reversed index, every recorded index leads back to itself, and
/// the same accounts are listed.
pub proof fn lemma_build_index_bijection(accounts: Seq<(Seq<char>, usize)>)
    requires
        keys_distinct(accounts),
        accounts.len() <= usize::MAX,
    ensures
        to_map(indexed_accounts(accounts)).dom() == to_map(accounts).dom(),
        forall|name: Seq<char>| #[trigger]
            to_map(indexed_accounts(accounts)).contains_key(name) ==> {
                let i = to_map(indexed_accounts(accounts))[name];
                &&& reversed_accounts(accounts).contains_key(i)
                &&& reversed_accounts(accounts)[i] == name
            },
        forall|i: usize| #[trigger]
            reversed_accounts(accounts).contains_key(i) ==> {
                let name = reversed_accounts(accounts)[i];
                &&& to_map(indexed_accounts(accounts)).contains_key(name)
                &&& to_map(indexed_accounts(accounts))[name] == i
            },
{
    let idx = indexed_accounts(accounts);
    assert(keys_distinct(idx)) by {
        assert forall|x: int, y: int| 0 <= x < y < idx.len() implies #[trigger] idx[x].0
            != #[trigger] idx[y].0 by {
            assert(idx[x].0 == accounts[x].0);
            assert(idx[y].0 == accounts[y].0);
        }
    }
    lemma_to_map(idx);
    lemma_to_map(accounts);
    assert forall|name: Seq<char>| #[trigger] to_map(idx).contains_key(name) <==> to_map(
        accounts,
    ).contains_key(name) by {
        if has_key(idx, name) {
            let j = choose|j: int| 0 <= j < idx.len() && #[trigger] idx[j].0 == name;
            assert(accounts[j].0 == name);
        }
        if has_key(accounts, name) {
            let j = choose|j: int| 0 <= j < accounts.len() && #[trigger] accounts[j].0 == name;
            assert(idx[j].0 == name);
        }
    }
    assert(to_map(idx).dom() =~= to_map(accounts).dom());
    assert forall|name: Seq<char>| #[trigger] to_map(idx).contains_key(name) implies {
        let i = to_map(idx)[name];
        &&& reversed_accounts(accounts).contains_key(i)
        &&& reversed_accounts(accounts)[i] == name
    } by {
        let j = choose|j: int| 0 <= j < idx.len() && #[trigger] idx[j].0 == name;
        assert(to_map(idx)[idx[j].0] == idx[j].1);
        assert(idx[j].1 == j as usize);
        assert((j as usize) < accounts.len());
        assert(reversed_accounts(accounts)[j as usize] == accounts[j].0);
    }
    assert forall|i: usize| #[trigger] reversed_accounts(accounts).contains_key(i) implies {
        let name = reversed_accounts(accounts)[i];
        &&& to_map(idx).contains_key(name)
        &&& to_map(idx)[name] == i
    } by {
        assert(idx[i as int].0 == accounts[i as int].0);
        assert(has_key(idx, idx[i as int].0));
        assert(to_map(idx)[idx[i as int].0] == idx[i as int].1);
    }
}

impl AcRatioTableSet {
    /// In a well-formed set accounts are listed once each, both accounts of
    /// every kept entry have an index, and every index is below the number of
    /// accounts.
    pub proof fn lemma_entries_have_indexes(&self)
        requires
            self.wf(),
        ensures
            keys_distinct(self.accounts()),
            forall|i: int|
                0 <= i < self.accounts().len() ==> self.account_index().contains_key(
                    (#[trigger] self.accounts()[i]).0,
                ) && self.account_index()[self.accounts()[i].0] == self.accounts()[i].1,
            forall|i: int|
                0 <= i < self.stored().len() ==> {
                    let e = (#[trigger] self.stored()[i]).0;
                    &&& self.account_index().contains_key(e.ac)
                    &&& self.account_index().contains_key(e.fac)
                },
            forall|name: Seq<char>| #[trigger]
                self.account_index().contains_key(name) ==> self.account_index()[name]
                    < self.accounts().len(),
    {
        lemma_to_map(self.accounts());
        assert forall|name: Seq<char>| #[trigger] self.account_index().contains_key(
            name,
        ) implies self.account_index()[name] < self.accounts().len() by {
            lemma_index_bound(self.accounts(), name);
        }
    }
}

proof fn lemma_last_writer(
    stored: Seq<(EntryView, usize)>,
    index: Map<Seq<char>, usize>,
    ids: Seq<usize>,
    sym: usize,
    p: (int, int),
    upto: int,
)
    requires
        0 <= upto <= stored.len(),
        stored.len() <= usize::MAX,
    ensures
        last_writer(stored, index, ids, sym, p, upto) matches Some(w) ==> {
            &&& w < upto
            &&& writes(stored, index, ids, w as int, sym, p)
            &&& forall|j: int| w < j < upto ==> !writes(stored, index, ids, j, sym, p)
        },
        last_writer(stored, index, ids, sym, p, upto) is None ==> forall|j: int|
            0 <= j < upto ==> !writes(stored, index, ids, j, sym, p),
    decreases upto,
{
    if upto > 0 {
        lemma_last_writer(stored, index, ids, sym, p, upto - 1);
    }
}

/// After `complete`, the table of every symbol of `ids` is `n` by `n`, and
/// each of its cells holds the last kept entry that applies to the symbol
/// whose followed account has the cell's row as index and whose own account
/// has the cell's column, or no entry where none does.
pub proof fn lemma_completed_cell(
    tables: Map<usize, TableView>,
    stored: Seq<(EntryView, usize)>,
    index: Map<Seq<char>, usize>,
    ids: Seq<usize>,
    n: nat,
    sym: usize,
    p: (int, int),
)
    requires
        ids.contains(sym),
        in_table(n, n, p),
        stored.len() <= usize::MAX,
    ensures
        completed_tables(tables, stored, index, ids, n).contains_key(sym),
        completed_tables(tables, stored, index, ids, n)[sym].rows == n,
        completed_tables(tables, stored, index, ids, n)[sym].cols == n,
        completed_tables(tables, stored, index, ids, n)[sym].cells.contains_key(p),
        completed_tables(tables, stored, index, ids, n)[sym].cells[p] matches Some(w) ==> {
            &&& w < stored.len()
            &&& writes(stored, index, ids, w as int, sym, p)
            &&& forall|j: int| w < j < stored.len() ==> !writes(stored, index, ids, j, sym, p)
        },
        completed_tables(tables, stored, index, ids, n)[sym].cells[p] is None ==> forall|j: int|
            0 <= j < stored.len() ==> !writes(stored, index, ids, j, sym, p),
{
    lemma_last_writer(stored, index, ids, sym, p, stored.len() as int);
    let base = base_table(tables, ids, n, sym);
    assert(completed_tables(tables, stored, index, ids, n)[sym] == filled(
        base,
        stored,
        index,
        ids,
        sym,
        stored.len() as int,
    ));
    assert(base.cells.contains_key(p));
    if ids.contains(sym) {
        assert(base.cells[p] is None);
    }
}

/// After `complete`, every kept entry whose accounts are indexed has a ratio
/// in its cell (row: index of the followed account, column: index of its
/// own account) of the table of its own symbol, and, for an entry with
/// symbol `SYMBOL_ID_ALL`, of the table of every symbol that `ids` lists. The
/// cell holds that entry or a later one of the same two accounts that also
/// applies to the symbol.
pub proof fn lemma_complete_writes_entry(
    tables: Map<usize, TableView>,
    stored: Seq<(EntryView, usize)>,
    index: Map<Seq<char>, usize>,
    ids: Seq<usize>,
    n: nat,
    i: int,
    sym: usize,
)
    requires
        stored.len() <= usize::MAX,
        0 <= i < stored.len(),
        index.contains_key(stored[i].0.ac),
        index.contains_key(stored[i].0.fac),
        index[stored[i].0.ac] < n,
        index[stored[i].0.fac] < n,
        ids.contains(sym),
        stored[i].0.symbol == SYMBOL_ID_ALL || stored[i].0.symbol == sym,
    ensures
        completed_tables(tables, stored, index, ids, n).contains_key(sym),
        completed_tables(tables, stored, index, ids, n)[sym].cells[(
            index[stored[i].0.fac] as int,
            index[stored[i].0.ac] as int,
        )] matches Some(w) && i <= w < stored.len() && index.contains_key(stored[w as int].0.ac)
            && index.contains_key(stored[w as int].0.fac) && index[stored[w as int].0.fac]
            == index[stored[i].0.fac] && index[stored[w as int].0.ac] == index[stored[i].0.ac] && (
        stored[w as int].0.symbol == SYMBOL_ID_ALL || stored[w as int].0.symbol == sym),
{
    let e = stored[i].0;
    let p = (index[e.fac] as int, index[e.ac] as int);
    lemma_completed_cell(tables, stored, index, ids, n, sym, p);
    assert(writes(stored, index, ids, i, sym, p));
}

/// After `complete`, a ratio in a cell of a symbol's table comes from a kept
/// entry that applies to that symbol (its own symbol, or `SYMBOL_ID_ALL` for a
/// symbol that `ids` lists) and whose accounts have the cell's row and column
/// as indexes, or, in a table of a symbol that `ids` does not list, was there
/// before.
pub proof fn lemma_complete_cell_source(
    tables: Map<usize, TableView>,
    stored: Seq<(EntryView, usize)>,
    index: Map<Seq<char>, usize>,
    ids: Seq<usize>,
    n: nat,
    sym: usize,
    p: (int, int),
)
    requires
        stored.len() <= usize::MAX,
        completed_tables(tables, stored, index, ids, n).contains_key(sym),
        completed_tables(tables, stored, index, ids, n)[sym].cells.contains_key(p),
    ensures
        completed_tables(tables, stored, index, ids, n)[sym].cells[p] matches Some(w) ==> (
        !ids.contains(sym) && tables[sym].cells[p] == Some(w)) || (w < stored.len()
            && index.contains_key(stored[w as int].0.ac) && index.contains_key(
            stored[w as int].0.fac,
        ) && p == (index[stored[w as int].0.fac] as int, index[stored[w as int].0.ac] as int) && (
        stored[w as int].0.symbol == sym || (stored[w as int].0.symbol == SYMBOL_ID_ALL
            && ids.contains(sym)))),
{
    lemma_last_writer(stored, index, ids, sym, p, stored.len() as int);
    let base = base_table(tables, ids, n, sym);
    assert(completed_tables(tables, stored, index, ids, n)[sym] == filled(
        base,
        stored,
        index,
        ids,
        sym,
        stored.len() as int,
    ));
    assert(base.cells.contains_key(p));
    if ids.contains(sym) {
        assert(base.cells[p] is None);
    }
}

} // verus!

verus! {

/// Running `complete` again with the same symbols, on the entries and
/// accounts it left unchanged, changes no table: the tables it gives are the
/// tables it was given. Where the old tables fitted the entries before the
/// first run, the tables after it fit them too, so the second run may be made.
pub proof fn lemma_complete_idempotent(
    tables: Map<usize, TableView>,
    stored: Seq<(EntryView, usize)>,
    index: Map<Seq<char>, usize>,
    ids: Seq<usize>,
    n: nat,
)
    ensures
        completed_tables(completed_tables(tables, stored, index, ids, n), stored, index, ids, n)
            == completed_tables(tables, stored, index, ids, n),
        old_tables_fit(tables, stored, index, ids) ==> old_tables_fit(
            completed_tables(tables, stored, index, ids, n),
            stored,
            index,
            ids,
        ),
{
    let once = completed_tables(tables, stored, index, ids, n);
    let twice = completed_tables(once, stored, index, ids, n);
    let m = stored.len() as int;
    assert forall|sym: usize| #[trigger] twice.contains_key(sym) implies twice[sym] == once[sym] by {
        if !ids.contains(sym) {
            let b1 = tables[sym];
            let f1 = filled(b1, stored, index, ids, sym, m);
            assert(once[sym] == f1);
            let f2 = filled(f1, stored, index, ids, sym, m);
            assert(twice[sym] == f2);
            assert forall|p: (int, int)| #[trigger] f2.cells.contains_key(p) implies f2.cells[p]
                == f1.cells[p] by {
            }
            assert(f2.cells =~= f1.cells);
        }
    }
    assert(twice =~= once);
}

/// The kept entries and the accounts after adding the entries `es` in order.
pub open spec fn added_all(
    stored: Seq<(EntryView, usize)>,
    accounts: Seq<(Seq<char>, usize)>,
    es: Seq<EntryView>,
) -> (Seq<(EntryView, usize)>, Seq<(Seq<char>, usize)>)
    decreases es.len(),
{
    if es.len() == 0 {
        (stored, accounts)
    } else {
        let prev = added_all(stored, accounts, es.drop_last());
        (added_entries(prev.0, es.last()), added_accounts(prev.1, prev.0, es.last()))
    }
}

/// Adding `e` keeps every kept entry where it was, adds at most one, and
/// leaves some kept entry with the key of `e`; with no such key before, `e`
/// is appended, added once.
proof fn lemma_added_entries_step(stored: Seq<(EntryView, usize)>, e: EntryView)
    ensures
        stored.len() <= added_entries(stored, e).len() <= stored.len() + 1,
        forall|i: int| 0 <= i < stored.len() ==> (#[trigger] added_entries(stored, e)[i]).0 == stored[i].0,
        exists|j: int|
            0 <= j < added_entries(stored, e).len() && #[trigger] entry_key(
                added_entries(stored, e)[j].0,
            ) == entry_key(e),
        !has_entry_key(stored, entry_key(e)) ==> added_entries(stored, e) == stored.push((e, 1usize)),
{
    let r = added_entries(stored, e);
    if has_entry_key(stored, entry_key(e)) {
        let i = entry_key_index(stored, entry_key(e));
        assert(entry_key(r[i].0) == entry_key(e));
    } else {
        assert(entry_key(r[stored.len() as int].0) == entry_key(e));
    }
}

/// Adding a list of entries adds every one of them: after it, each entry of
/// the list has a kept entry with its key, and every entry kept before is
/// still kept at its place.
pub proof fn lemma_add_entries_keeps_every_key(
    stored: Seq<(EntryView, usize)>,
    accounts: Seq<(Seq<char>, usize)>,
    es: Seq<EntryView>,
)
    ensures
        added_all(stored, accounts, es).0.len() >= stored.len(),
        forall|i: int|
            0 <= i < stored.len() ==> (#[trigger] added_all(stored, accounts, es).0[i]).0
                == stored[i].0,
        forall|k: int|
            0 <= k < es.len() ==> exists|j: int|
                0 <= j < added_all(stored, accounts, es).0.len() && #[trigger] entry_key(
                    added_all(stored, accounts, es).0[j].0,
                ) == entry_key(#[trigger] es[k]),
    decreases es.len(),
{
    if es.len() > 0 {
        let init = es.drop_last();
        lemma_add_entries_keeps_every_key(stored, accounts, init);
        let prev = added_all(stored, accounts, init);
        let r = added_all(stored, accounts, es);
        lemma_added_entries_step(prev.0, es.last());
        assert(r.0 == added_entries(prev.0, es.last()));
        assert forall|i: int| 0 <= i < stored.len() implies (#[trigger] r.0[i]).0 == stored[i].0 by {
            assert(r.0[i].0 == prev.0[i].0);
            assert(prev.0[i].0 == stored[i].0);
        }
        assert forall|k: int| 0 <= k < es.len() implies exists|j: int|
            0 <= j < r.0.len() && #[trigger] entry_key(r.0[j].0) == entry_key(#[trigger] es[k]) by {
            if k < es.len() - 1 {
                assert(es[k] == init[k]);
                let j = choose|j: int|
                    0 <= j < prev.0.len() && #[trigger] entry_key(prev.0[j].0) == entry_key(init[k]);
                assert(r.0[j].0 == prev.0[j].0);
                assert(entry_key(r.0[j].0) == entry_key(es[k]));
            } else {
                assert(es[k] == es.last());
            }
        }
    }
}

/// Adding, to an empty set, entries whose keys are all different keeps each
/// of them, once, in order, and lists both accounts of each.
pub proof fn lemma_add_distinct_entries(es: Seq<EntryView>)
    requires
        forall|i: int, j: int|
            0 <= i < j < es.len() ==> entry_key(#[trigger] es[i]) != entry_key(#[trigger] es[j]),
    ensures
        added_all(Seq::empty(), Seq::empty(), es).0 == es.map_values(|e: EntryView| (e, 1usize)),
        forall|k: int|
            0 <= k < es.len() ==> exists|j: int|
                0 <= j < added_all(Seq::empty(), Seq::empty(), es).1.len() && #[trigger] added_all(
                    Seq::empty(),
                    Seq::empty(),
                    es,
                ).1[j].0 == (#[trigger] es[k]).ac,
        forall|k: int|
            0 <= k < es.len() ==> exists|j: int|
                0 <= j < added_all(Seq::empty(), Seq::empty(), es).1.len() && #[trigger] added_all(
                    Seq::empty(),
                    Seq::empty(),
                    es,
                ).1[j].0 == (#[trigger] es[k]).fac,
    decreases es.len(),
{
    let r = added_all(Seq::<(EntryView, usize)>::empty(), Seq::<(Seq<char>, usize)>::empty(), es);
    if es.len() == 0 {
        assert(r.0 =~= es.map_values(|e: EntryView| (e, 1usize)));
    } else {
        let init = es.drop_last();
        let e = es.last();
        assert forall|i: int, j: int| 0 <= i < j < init.len() implies entry_key(
            #[trigger] init[i],
        ) != entry_key(#[trigger] init[j]) by {
            assert(init[i] == es[i] && init[j] == es[j]);
        }
        lemma_add_distinct_entries(init);
        let prev = added_all(Seq::<(EntryView, usize)>::empty(), Seq::<(Seq<char>, usize)>::empty(), init);
        assert(prev.0 == init.map_values(|x: EntryView| (x, 1usize)));
        assert(!has_entry_key(prev.0, entry_key(e))) by {
            if has_entry_key(prev.0, entry_key(e)) {
                let i = choose|i: int| 0 <= i < prev.0.len() && #[trigger] entry_key(prev.0[i].0) == entry_key(e);
                assert(prev.0[i].0 == es[i]);
                assert(entry_key(es[i]) != entry_key(es[es.len() - 1]));
            }
        }
        assert(r.0 == prev.0.push((e, 1usize)));
        assert(r.0 =~= es.map_values(|x: EntryView| (x, 1usize)));
        let a1 = put(prev.1, e.ac, 0);
        assert(r.1 == put(a1, e.fac, 0));
        lemma_put_keys(prev.1, e.ac, 0usize);
        lemma_put_keys(a1, e.fac, 0usize);
        assert forall|k: int| 0 <= k < es.len() implies has_key(r.1, (#[trigger] es[k]).ac) && has_key(r.1, es[k].fac) by {
            if k < es.len() - 1 {
                assert(es[k] == init[k]);
                assert(has_key(prev.1, init[k].ac));
                assert(has_key(prev.1, init[k].fac));
            }
        }
        assert forall|k: int| 0 <= k < es.len() implies exists|j: int|
            0 <= j < r.1.len() && #[trigger] r.1[j].0 == (#[trigger] es[k]).ac by {
            assert(has_key(r.1, es[k].ac));
        }
        assert forall|k: int| 0 <= k < es.len() implies exists|j: int|
            0 <= j < r.1.len() && #[trigger] r.1[j].0 == (#[trigger] es[k]).fac by {
            assert(has_key(r.1, es[k].fac));
        }
    }
}

impl AcRatioTableSet {
    /// Adds the entries in order, as `add_entry` adds each.
    pub fn add_entries(&mut self, entries: Vec<AcEntry>)
        requires
            old(self).wf(),
        ensures
            final(self).wf(),
            (final(self).stored(), final(self).accounts()) == added_all(
                old(self).stored(),
                old(self).accounts(),
                entries@.map_values(|e: AcEntry| e@),
            ),
            final(self).reversed() == old(self).reversed(),
            final(self).table_views() == old(self).table_views(),
            final(self).dispatch() == old(self).dispatch(),
    {
        let ghost all = entries@.map_values(|e: AcEntry| e@);
        let count = entries.len();
        let ghost n = entries@.len();
        let mut rest = entries;
        let mut i: usize = 0;
        proof {
            assert(all.take(0) =~= Seq::<EntryView>::empty());
        }
        while rest.len() > 0
            invariant
                self.wf(),
                i <= n,
                n == count,
                rest@.len() == n - i,
                forall|j: int| 0 <= j < rest@.len() ==> (#[trigger] rest@[j])@ == all[i + j],
                all.len() == n,
                (self.stored(), self.accounts()) == added_all(
                    old(self).stored(),
                    old(self).accounts(),
                    all.take(i as int),
                ),
                self.reversed() == old(self).reversed(),
                self.table_views() == old(self).table_views(),
                self.dispatch() == old(self).dispatch(),
            decreases rest@.len(),
        {
            let ghost before = rest@;
            let en = rest.remove(0);
            proof {
                assert(en@ == all[i as int]);
                assert forall|j: int| 0 <= j < rest@.len() implies (#[trigger] rest@[j])@ == all[i
                    + 1 + j] by {
                    assert(rest@[j] == before[j + 1]);
                }
                assert(all.take(i + 1).drop_last() =~= all.take(i as int));
                assert(all.take(i + 1).last() == all[i as int]);
            }
            self.add_entry(en);
            i = i + 1;
        }
        proof {
            assert(all.take(i as int) =~= all);
        }
    }
}

} // verus!
