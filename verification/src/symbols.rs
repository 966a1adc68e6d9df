//! The symbol table: product or contract names and their ids.

use vstd::prelude::*;
use crate::assoc::{find_key, has_key, keys_distinct, lemma_put, lemma_to_map, pairs_view, put, put_key, to_map};

verus! {

#[verifier::external_type_specification]
#[verifier::external_body]
pub struct ExJsonError(serde_json::Error);

/// What `serde_json` reads from a JSON object of names to ids: the pairs in
/// ascending name order, or `None` where the text is not such an object.
pub uninterp spec fn json_symbol_pairs(text: Seq<char>) -> Option<Seq<(Seq<char>, usize)>>;

/// Reads `text` with `serde_json::from_str` as a `BTreeMap<String, usize>` and
/// lists its pairs. The result is `Ok` exactly where `json_symbol_pairs` gives
/// the pairs; the map's keys are distinct. What `serde_json` accepts as JSON is
/// not written out here.
#[verifier::external_body]
fn parse_symbol_json(text: &str) -> (r: Result<Vec<(String, usize)>, serde_json::Error>)
    ensures
        match r {
            Ok(v) => json_symbol_pairs(text@) == Some(pairs_view(v@)) && keys_distinct(
                pairs_view(v@),
            ),
            Err(_) => json_symbol_pairs(text@) is None,
        },
{
    match serde_json::from_str::<std::collections::BTreeMap<String, usize>>(text) {
        Ok(m) => Ok(m.into_iter().collect()),
        Err(e) => Err(e),
    }
}

/// Why a symbol table could not be read.
#[derive(Debug, Clone, PartialEq, Eq)]
pub enum SymbolTableError {
    /// The text is not a JSON object of names to non-negative integers.
    InvalidJson,
}

/// Symbol names and their ids.
#[derive(Debug, Clone)]
pub struct SymbolTable(Vec<(String, usize)>);

impl SymbolTable {
    /// The `(name, id)` pairs, in the order `all_ids` lists the ids.
    pub closed spec fn entries(&self) -> Seq<(Seq<char>, usize)> {
        pairs_view(self.0@)
    }

    /// No name occurs twice.
    pub open spec fn wf(&self) -> bool {
        keys_distinct(self.entries())
    }

    /// The ids in the order `all_ids` returns them.
    pub open spec fn ids(&self) -> Seq<usize> {
        self.entries().map_values(|p: (Seq<char>, usize)| p.1)
    }

    /// An empty table.
    pub fn new() -> (t: Self)
        ensures
            t.wf(),
            t@ == Map::<Seq<char>, usize>::empty(),
            t.entries() == Seq::<(Seq<char>, usize)>::empty(),
    {
        let t = SymbolTable(Vec::new());
        assert(t.entries() =~= Seq::<(Seq<char>, usize)>::empty());
        t
    }

    /// The table written as a JSON object of names to ids.
    pub fn from_json(text: &str) -> (r: Result<Self, SymbolTableError>)
        ensures
            match r {
                Ok(t) => t.wf() && json_symbol_pairs(text@) == Some(t.entries()),
                Err(e) => json_symbol_pairs(text@) is None && e == SymbolTableError::InvalidJson,
            },
    {
        match parse_symbol_json(text) {
            Ok(v) => Ok(SymbolTable(v)),
            Err(_) => Err(SymbolTableError::InvalidJson),
        }
    }

    /// The id of `name`.
    pub fn get_id(&self, name: &str) -> (id: usize)
        requires
            self.wf(),
            self@.contains_key(name@),
        ensures
            id == self@[name@],
    {
        proof {
            lemma_to_map(self.entries());
        }
        let key = String::from_str(name);
        match find_key(&self.0, &key) {
            Some(i) => {
                proof {
                    assert(self.entries()[i as int].0 == name@);
                }
                self.0[i].1
            },
            None => {
                proof {
                    assert(false);
                }
                0
            },
        }
    }

    /// The id of `name`, or `None` where it has none.
    pub fn id_of(&self, name: &str) -> (id: Option<usize>)
        requires
            self.wf(),
        ensures
            id == (if self@.contains_key(name@) {
                Some(self@[name@])
            } else {
                None
            }),
    {
        proof {
            lemma_to_map(self.entries());
        }
        let key = String::from_str(name);
        match find_key(&self.0, &key) {
            Some(i) => {
                proof {
                    assert(self.entries()[i as int].0 == name@);
                }
                Some(self.0[i].1)
            },
            None => None,
        }
    }

    /// Sets the id of `name`.
    pub fn add_one(&mut self, name: &str, id: usize)
        requires
            old(self).wf(),
        ensures
            final(self).wf(),
            final(self)@ == old(self)@.insert(name@, id),
            final(self).entries() == put(old(self).entries(), name@, id),
    {
        let key = String::from_str(name);
        proof {
            lemma_put(self.entries(), name@, id);
        }
        put_key(&mut self.0, key, id);
    }

    /// Every id, one per name.
    pub fn all_ids(&self) -> (ids: Vec<usize>)
        ensures
            ids@ == self.ids(),
    {
        let n = self.0.len();
        let mut ids: Vec<usize> = Vec::new();
        let mut i: usize = 0;
        while i < n
            invariant
                i <= n,
                n == self.0@.len(),
                ids@ =~= self.ids().take(i as int),
            decreases n - i,
        {
            ids.push(self.0[i].1);
            i = i + 1;
        }
        ids
    }

    /// The name of a row index; no name is kept for indexes, so it is empty.
    pub fn name_by_index(&self, id: usize) -> (name: String)
        ensures
            name@ == Seq::<char>::empty(),
    {
        String::new()
    }
}

impl View for SymbolTable {
    type V = Map<Seq<char>, usize>;

    open spec fn view(&self) -> Map<Seq<char>, usize> {
        to_map(self.entries())
    }
}

/// `all_ids` lists one id per name, and the ids it lists are exactly the
/// ids that the names have.
pub proof fn lemma_all_ids_lists_every_id(t: SymbolTable)
    requires
        t.wf(),
    ensures
        t.ids().len() == t@.dom().len(),
        t.ids().to_set() == t@.values(),
{
    let e = t.entries();
    lemma_to_map(e);
    assert forall|v: usize| t@.values().contains(v) implies #[trigger] t.ids().to_set().contains(v) by {
        let name = choose|name: Seq<char>| #[trigger] t@.contains_key(name) && t@[name] == v;
        let i = choose|i: int| 0 <= i < e.len() && #[trigger] e[i].0 == name;
        assert(t.ids()[i] == v);
    }
    assert forall|v: usize| #[trigger] t.ids().to_set().contains(v) implies t@.values().contains(v) by {
        let i = choose|i: int| 0 <= i < t.ids().len() && #[trigger] t.ids()[i] == v;
        assert(has_key(e, e[i].0));
        assert(t@.contains_key(e[i].0) && t@[e[i].0] == v);
    }
    assert(t.ids().to_set() =~= t@.values());
}

/// After `add_one(name, id)`, `get_id(name)` gives `id` and every other name
/// keeps its id.
pub proof fn lemma_get_id_after_add_one(before: SymbolTable, after: SymbolTable, name: Seq<char>, id: usize)
    requires
        after@ == before@.insert(name, id),
    ensures
        after@.contains_key(name),
        after@[name] == id,
        forall|other: Seq<char>|
            other != name ==> (#[trigger] after@.contains_key(other) == before@.contains_key(other)
                && (before@.contains_key(other) ==> after@[other] == before@[other])),
{
}

} // verus!
