//! Follow entries: one configuration line `ac,fac,ratio,symbol` says that
//! account `ac` follows account `fac` with the given ratio, for one symbol or,
//! with symbol `SYMBOL_ID_ALL`, for every symbol.

use vstd::prelude::*;
use crate::text::{
    all_white_space, is_white_space, joined, lemma_split_on_joined, lemma_trimmed_padded, parse_usize,
    parse_usize_spec, pieces, split_bounds, split_on, trim, trimmed,
};

verus! {

/// The symbol id by which an entry applies to every symbol.
pub const SYMBOL_ID_ALL: usize = 0;

/// One follow relation.
#[derive(Debug, Clone)]
pub struct AcEntry {
    /// The following account.
    pub ac: String,
    /// The account that is followed.
    pub fac: String,
    /// The ratio, as the decimal text that `f64`'s `Display` writes for it.
    pub ratio: String,
    /// The symbol the entry applies to; `SYMBOL_ID_ALL` for all of them.
    pub symbol: usize,
}

/// The mathematical content of an `AcEntry`.
pub struct EntryView {
    pub ac: Seq<char>,
    pub fac: Seq<char>,
    pub ratio: Seq<char>,
    pub symbol: usize,
}

impl View for AcEntry {
    type V = EntryView;

    open spec fn view(&self) -> EntryView {
        EntryView { ac: self.ac@, fac: self.fac@, ratio: self.ratio@, symbol: self.symbol }
    }
}

/// The identity under which entries are merged: `ac`, `fac` and the ratio
/// text joined by `_`.
pub open spec fn entry_key(e: EntryView) -> Seq<char> {
    e.ac + seq!['_'] + e.fac + seq!['_'] + e.ratio
}

impl AcEntry {
    /// The key `ac_fac_ratio` of this entry.
    pub fn hash(&self) -> (h: String)
        ensures
            h@ == entry_key(self@),
    {
        let mut h = self.ac.clone();
        h.append("_");
        h.append(self.fac.as_str());
        h.append("_");
        h.append(self.ratio.as_str());
        proof {
            reveal_strlit("_");
            assert("_"@ =~= seq!['_']);
        }
        h
    }
}

/// The key of an entry is made of the whole of its three texts: its account,
/// `_`, the followed account, `_`, and the ratio text, each in full.
pub proof fn lemma_entry_key_parts(e: EntryView)
    ensures
        entry_key(e).len() == e.ac.len() + e.fac.len() + e.ratio.len() + 2,
        entry_key(e).subrange(0, e.ac.len() as int) == e.ac,
        entry_key(e)[e.ac.len() as int] == '_',
        entry_key(e).subrange(e.ac.len() + 1int, e.ac.len() + 1int + e.fac.len()) == e.fac,
        entry_key(e)[e.ac.len() + 1int + e.fac.len()] == '_',
        entry_key(e).subrange(e.ac.len() + e.fac.len() + 2int, entry_key(e).len() as int)
            == e.ratio,
{
    let k = entry_key(e);
    let a = e.ac.len() as int;
    let f = e.fac.len() as int;
    assert(k.subrange(0, a) =~= e.ac);
    assert(k.subrange(a + 1, a + 1 + f) =~= e.fac);
    assert(k.subrange(a + f + 2, k.len() as int) =~= e.ratio);
}

/// Two entries of the same accounts have the same key exactly when their
/// ratio texts are the same: entries that differ only in the ratio are never
/// merged.
pub proof fn lemma_entry_key_separates_ratios(e1: EntryView, e2: EntryView)
    requires
        e1.ac == e2.ac,
        e1.fac == e2.fac,
    ensures
        entry_key(e1) == entry_key(e2) <==> e1.ratio == e2.ratio,
{
    lemma_entry_key_parts(e1);
    lemma_entry_key_parts(e2);
    if entry_key(e1) == entry_key(e2) {
        assert(e1.ratio == entry_key(e1).subrange(
            e1.ac.len() + e1.fac.len() + 2int,
            entry_key(e1).len() as int,
        ));
    }
}

/// The four trimmed fields of a configuration line, not yet interpreted.
#[derive(Debug, Clone)]
pub struct RawEntry {
    pub ac: String,
    pub fac: String,
    pub ratio: String,
    pub symbol: String,
}

/// How a configuration line splits into fields.
#[derive(Debug, Clone)]
pub enum LineParse {
    /// The line does not have exactly four comma-separated fields.
    Skipped,
    /// The first field starts with `#`.
    Comment,
    /// Four fields, the first one non-empty and not a comment.
    Fields(RawEntry),
}

/// The comma-separated fields of a line, each trimmed of whitespace.
pub open spec fn line_fields(text: Seq<char>) -> Seq<Seq<char>> {
    split_on(text, ',').map_values(|f: Seq<char>| trimmed(f))
}

/// The fields of a line are the texts between its commas, each whole, without
/// the whitespace around it: a line made of the texts `core`, each padded
/// with whitespace on either side and joined by commas, has exactly `core`
/// as its fields.
pub proof fn lemma_line_fields_padded(
    left: Seq<Seq<char>>,
    core: Seq<Seq<char>>,
    right: Seq<Seq<char>>,
)
    requires
        core.len() >= 1,
        left.len() == core.len(),
        right.len() == core.len(),
        forall|k: int| 0 <= k < core.len() ==> all_white_space(#[trigger] left[k]),
        forall|k: int| 0 <= k < core.len() ==> all_white_space(#[trigger] right[k]),
        forall|k: int| 0 <= k < core.len() ==> !(#[trigger] core[k]).contains(','),
        forall|k: int|
            0 <= k < core.len() ==> (#[trigger] core[k]).len() == 0 || (!is_white_space(core[k][0])
                && !is_white_space(core[k].last())),
    ensures
        line_fields(joined(Seq::new(core.len(), |k: int| left[k] + core[k] + right[k]), ','))
            == core,
{
    let ps = Seq::new(core.len(), |k: int| left[k] + core[k] + right[k]);
    assert(!is_white_space(','));
    assert forall|k: int| 0 <= k < ps.len() implies !(#[trigger] ps[k]).contains(',') by {
        if ps[k].contains(',') {
            let j = choose|j: int| 0 <= j < ps[k].len() && ps[k][j] == ',';
            let l = left[k];
            let c = core[k];
            if j < l.len() {
                assert(ps[k][j] == l[j]);
                assert(is_white_space(l[j]));
            } else if j < l.len() + c.len() {
                assert(ps[k][j] == c[j - l.len()]);
            } else {
                assert(ps[k][j] == right[k][j - l.len() - c.len()]);
                assert(is_white_space(right[k][j - l.len() - c.len()]));
            }
        }
    }
    lemma_split_on_joined(ps, ',');
    assert forall|k: int| 0 <= k < core.len() implies #[trigger] trimmed(ps[k]) == core[k] by {
        lemma_trimmed_padded(left[k], core[k], right[k]);
    }
    assert(line_fields(joined(ps, ',')) =~= core);
}

/// A line of four fields whose first field is empty after trimming: the
/// format has no reading for it, and reading it is a fatal error.
pub open spec fn line_lacks_account(text: Seq<char>) -> bool {
    line_fields(text).len() == 4 && line_fields(text)[0].len() == 0
}

/// The outcome `split_line` gives for `text` (a line that does not lack its
/// account).
pub open spec fn split_line_spec(text: Seq<char>, r: LineParse) -> bool {
    let f = line_fields(text);
    if f.len() != 4 {
        r is Skipped
    } else if f[0][0] == '#' {
        r is Comment
    } else {
        &&& r is Fields
        &&& r->Fields_0.ac@ == f[0]
        &&& r->Fields_0.fac@ == f[1]
        &&& r->Fields_0.ratio@ == f[2]
        &&& r->Fields_0.symbol@ == f[3]
    }
}

/// The trimmed comma-separated fields of `text`.
fn trimmed_fields(text: &str) -> (fields: Vec<String>)
    ensures
        fields@.len() == line_fields(text@).len(),
        forall|j: int| 0 <= j < fields@.len() ==> #[trigger] fields@[j]@ == line_fields(text@)[j],
{
    let bounds = split_bounds(text, ',');
    let ghost f = line_fields(text@);
    let n = bounds.len();
    let mut fields: Vec<String> = Vec::new();
    let mut k: usize = 0;
    while k < n
        invariant
            k <= n,
            n == bounds@.len(),
            forall|j: int| 0 <= j < n ==> #[trigger] bounds@[j].0 <= bounds@[j].1 <= text@.len(),
            pieces(text@, bounds@) == split_on(text@, ','),
            f == line_fields(text@),
            fields@.len() == k,
            forall|j: int| 0 <= j < k ==> #[trigger] fields@[j]@ == f[j],
        decreases n - k,
    {
        let b = bounds[k];
        let piece = text.substring_char(b.0, b.1);
        let t = trim(piece);
        proof {
            assert(pieces(text@, bounds@)[k as int] == piece@);
        }
        fields.push(String::from_str(t));
        k = k + 1;
    }
    fields
}

/// Whether `text` has four fields with an empty first one; reading such a
/// line is a fatal error, so a reader tests this before `split_line`.
pub fn lacks_account(text: &str) -> (r: bool)
    ensures
        r == line_lacks_account(text@),
{
    let fields = trimmed_fields(text);
    fields.len() == 4 && fields[0].as_str().unicode_len() == 0
}

/// Splits a line `ac,fac,ratio,symbol` into its trimmed fields. Lines that
/// do not have four fields, and comment lines, are to be skipped. A line of
/// four fields with an empty first one has no reading and is left out.
pub fn split_line(text: &str) -> (r: LineParse)
    requires
        !line_lacks_account(text@),
    ensures
        split_line_spec(text@, r),
{
    let mut fields = trimmed_fields(text);
    if fields.len() != 4 {
        return LineParse::Skipped;
    }
    let symbol = fields.pop().unwrap();
    let ratio = fields.pop().unwrap();
    let fac = fields.pop().unwrap();
    let ac = fields.pop().unwrap();
    if ac.as_str().get_char(0) == '#' {
        return LineParse::Comment;
    }
    LineParse::Fields(RawEntry { ac, fac, ratio, symbol })
}

impl AcEntry {
    /// Builds the entry of a split line. `ratio` is the ratio field's number
    /// written back as text, or `None` where the ratio field is not a number;
    /// such a line gives no entry and is to be skipped. A line with a number
    /// as ratio but a symbol that is not a `usize` has no reading and is left
    /// out.
    pub fn from_fields(raw: RawEntry, ratio: Option<String>) -> (r: Option<AcEntry>)
        requires
            ratio is Some ==> parse_usize_spec(raw.symbol@) is Some,
        ensures
            match ratio {
                None => r is None,
                Some(t) => r is Some && r->0@ == (EntryView {
                    ac: raw.ac@,
                    fac: raw.fac@,
                    ratio: t@,
                    symbol: parse_usize_spec(raw.symbol@)->0,
                }),
            },
    {
        match ratio {
            None => None,
            Some(t) => match parse_usize(raw.symbol.as_str()) {
                None => None,
                Some(sym) => Some(AcEntry { ac: raw.ac, fac: raw.fac, ratio: t, symbol: sym }),
            },
        }
    }
}

} // verus!
