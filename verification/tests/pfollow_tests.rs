use pfollow::config::Config;
use pfollow::entry::{lacks_account, AcEntry, LineParse, RawEntry, SYMBOL_ID_ALL};
use pfollow::message::{decode_packet, PACKET_LEN};
use pfollow::ratio::AcRatioTableSet;
use pfollow::symbols::{SymbolTable, SymbolTableError};
use pfollow::test_actable;
use pfollow::text::{is_blank, is_whitespace, parse_usize, split_bounds, trim, trim_end_matches_char};

fn entry(ac: &str, fac: &str, ratio: &str, symbol: usize) -> AcEntry {
    AcEntry { ac: ac.to_string(), fac: fac.to_string(), ratio: ratio.to_string(), symbol }
}

fn raw(ac: &str, fac: &str, ratio: &str, symbol: &str) -> RawEntry {
    RawEntry {
        ac: ac.to_string(),
        fac: fac.to_string(),
        ratio: ratio.to_string(),
        symbol: symbol.to_string(),
    }
}

fn symbols(pairs: &[(&str, usize)]) -> SymbolTable {
    let mut t = SymbolTable::new();
    for (name, id) in pairs {
        t.add_one(name, *id);
    }
    t
}

#[test]
fn test_acRatioTableSet() {
    // a -> (b,c,d)
    // b-> x1
    // c-> (x1,b)
    // d-> (c,x2)
    //
}

#[test]
fn test_one() {
    // let st = SymboTable{HashMap::new()};
    // println!("-- {:?}",st.all_ids());
}

#[test]
fn actable_entry_point_does_nothing() {
    test_actable();
}

#[test]
fn whitespace_is_unicode_white_space() {
    assert!(is_whitespace(' '));
    assert!(is_whitespace('\t'));
    assert!(is_whitespace('\u{3000}'));
    assert!(is_whitespace('\u{85}'));
    assert!(!is_whitespace('a'));
    assert!(!is_whitespace('\u{200b}'));
    for c in ['x', ' ', '\n', '\u{a0}', '\u{2009}', '\u{feff}', '_'] {
        assert_eq!(is_whitespace(c), c.is_whitespace());
    }
}

#[test]
fn trim_matches_str_trim() {
    for s in ["  a b  ", "\t\nx\u{3000}", "", "   ", "abc", " \u{2028}q"] {
        assert_eq!(trim(s), s.trim());
    }
    assert!(is_blank(" \t "));
    assert!(is_blank(""));
    assert!(!is_blank(" x "));
    assert_eq!(trim_end_matches_char("ab\0\0", '\0'), "ab");
    assert_eq!(trim_end_matches_char("\0a\0b", '\0'), "\0a\0b");
}

#[test]
fn split_bounds_matches_str_split() {
    for s in ["a,b,c", "", ",", "a,,b,", "x"] {
        let bounds = split_bounds(s, ',');
        let pieces: Vec<&str> = s.split(',').collect();
        assert_eq!(bounds.len(), pieces.len());
        for (b, p) in bounds.iter().zip(pieces.iter()) {
            assert_eq!(&s[b.0..b.1], *p);
        }
    }
}

#[test]
fn parse_usize_matches_std() {
    for s in ["0", "007", "+12", "", "+", "-1", "1a", "18446744073709551615", "18446744073709551616", " 1"] {
        assert_eq!(parse_usize(s), s.parse::<usize>().ok(), "{:?}", s);
    }
    assert_eq!(parse_usize("+42"), Some(42));
}

#[test]
fn split_line_reads_four_trimmed_fields() {
    match pfollow::entry::split_line(" A , B ,0.5 , 3 ") {
        LineParse::Fields(r) => {
            assert_eq!(r.ac, "A");
            assert_eq!(r.fac, "B");
            assert_eq!(r.ratio, "0.5");
            assert_eq!(r.symbol, "3");
        }
        other => panic!("unexpected {:?}", other),
    }
}

#[test]
fn split_line_outcomes() {
    assert!(matches!(pfollow::entry::split_line("a,b,1"), LineParse::Skipped));
    assert!(matches!(pfollow::entry::split_line("a,b,1,2,3"), LineParse::Skipped));
    assert!(matches!(pfollow::entry::split_line(""), LineParse::Skipped));
    assert!(matches!(pfollow::entry::split_line("#a,b,1,2"), LineParse::Comment));
    assert!(matches!(pfollow::entry::split_line("  # a,b,1,2"), LineParse::Comment));
    assert!(matches!(pfollow::entry::split_line("a,,1,2"), LineParse::Fields(_)));
}

#[test]
fn lacks_account_only_on_four_fields_with_empty_first() {
    assert!(lacks_account(" ,b,1,2"));
    assert!(lacks_account(",b,0.5,1"));
    assert!(lacks_account("\t,,,"));
    assert!(!lacks_account("a,b,0.5,1"));
    assert!(!lacks_account(",b,1"));
    assert!(!lacks_account(",b,1,2,3"));
    assert!(!lacks_account(""));
    assert!(!lacks_account("#,b,1,2"));
}

#[test]
fn from_fields_outcomes() {
    assert!(AcEntry::from_fields(raw("a", "b", "x", "1"), None).is_none());
    assert!(AcEntry::from_fields(raw("a", "b", "x", "z"), None).is_none());
    // A number as ratio with a symbol that is not a usize is a fatal line:
    // readers test the symbol first.
    assert!(parse_usize("z").is_none());
    assert!(parse_usize("0.5").is_none());
    match AcEntry::from_fields(raw("a", "b", "0.50", "+7"), Some("0.5".to_string())) {
        Some(e) => {
            assert_eq!(e.ac, "a");
            assert_eq!(e.fac, "b");
            assert_eq!(e.ratio, "0.5");
            assert_eq!(e.symbol, 7);
        }
        None => panic!("expected an entry"),
    }
}

#[test]
fn hash_joins_with_underscores() {
    assert_eq!(entry("A", "B", "0.5", 1).hash(), "A_B_0.5");
    assert_eq!(entry("", "", "1", 0).hash(), "__1");
}

#[test]
fn add_entry_twice_counts_twice() {
    let mut ts = AcRatioTableSet::new();
    ts.add_entry(entry("A", "B", "0.5", 1));
    ts.add_entry(entry("A", "B", "0.5", 1));
    assert_eq!(ts.entry_count(), 1);
    assert_eq!(ts.entry(0).1, 2);
    assert_eq!(ts.entry(0).0.ac, "A");
    let st = symbols(&[("X", 1)]);
    assert_eq!(ts.get_dim(&st), (1, 2, 2));
}

#[test]
fn add_entry_with_other_ratio_is_kept_apart() {
    let mut ts = AcRatioTableSet::new();
    ts.add_entry(entry("A", "B", "0.5", 1));
    ts.add_entry(entry("A", "B", "1", 1));
    assert_eq!(ts.entry_count(), 2);
    assert_eq!(ts.entry(1).1, 1);
}

#[test]
fn add_entry_merges_on_equal_keys_only() {
    // "a_b" + "c" and "a" + "b_c" give the same key "a_b_c_1".
    let mut ts = AcRatioTableSet::new();
    ts.add_entry(entry("a_b", "c", "1", 1));
    ts.add_entry(entry("a", "b_c", "1", 2));
    assert_eq!(ts.entry_count(), 1);
    assert_eq!(ts.entry(0).1, 2);
    assert_eq!(ts.entry(0).0.ac, "a_b");
    assert_eq!(ts.get_ac_index("a"), None);
    assert_eq!(ts.get_ac_index("a_b"), Some(0));
}

#[test]
fn build_index_numbers_accounts() {
    let mut ts = AcRatioTableSet::new();
    ts.add_entry(entry("A", "B", "0.5", 1));
    ts.add_entry(entry("B", "C", "1", 0));
    assert_eq!(ts.get_ac_index("A"), Some(0));
    assert_eq!(ts.get_ac_index("C"), Some(0));
    ts.build_index();
    assert_eq!(ts.get_ac_index("A"), Some(0));
    assert_eq!(ts.get_ac_index("B"), Some(1));
    assert_eq!(ts.get_ac_index("C"), Some(2));
    assert_eq!(ts.get_ac_index("D"), None);
    // a new entry resets the index of the accounts it names
    ts.add_entry(entry("C", "D", "2", 1));
    assert_eq!(ts.get_ac_index("C"), Some(0));
    assert_eq!(ts.get_ac_index("D"), Some(0));
    assert_eq!(ts.get_ac_index("B"), Some(1));
}

#[test]
fn complete_fills_ratio_tables() {
    let mut ts = AcRatioTableSet::new();
    ts.add_entry(entry("A", "B", "0.1", 1));
    ts.add_entry(entry("M", "A", "1", SYMBOL_ID_ALL));
    ts.add_entry(entry("W", "B", "0.5", 9));
    ts.build_index();
    let st = symbols(&[("P", 1), ("Q", 2)]);
    ts.complete(&st);
    assert_eq!(ts.len(), 2);
    let t1 = ts.get(&1).unwrap();
    let t2 = ts.get(&2).unwrap();
    assert_eq!(t1.dims(), (4, 4));
    let a = ts.get_ac_index("A").unwrap();
    let b = ts.get_ac_index("B").unwrap();
    let m = ts.get_ac_index("M").unwrap();
    // row: the followed account, column: the following account
    assert_eq!(t1.get(b, a), Some(0));
    assert_eq!(t1.get(a, m), Some(1));
    assert_eq!(t1.get(a, b), None);
    assert_eq!(t1.get(m, a), None);
    assert_eq!(t2.get(b, a), None);
    assert_eq!(t2.get(a, m), Some(1));
    let mut filled = 0;
    for r in 0..4 {
        for c in 0..4 {
            if t1.get(r, c).is_some() {
                filled += 1;
            }
        }
    }
    assert_eq!(filled, 2);
    assert!(!ts.contains_key(&9));
}

#[test]
fn complete_later_entry_wins() {
    let mut ts = AcRatioTableSet::new();
    ts.add_entry(entry("A", "B", "0.1", 1));
    ts.add_entry(entry("A", "B", "0.2", SYMBOL_ID_ALL));
    ts.build_index();
    let st = symbols(&[("P", 1)]);
    ts.complete(&st);
    assert_eq!(ts.get(&1).unwrap().get(1, 0), Some(1));
    assert_eq!(ts.get(&1).unwrap().get(0, 1), None);
}

#[test]
fn complete_without_build_index_uses_index_zero() {
    let mut ts = AcRatioTableSet::new();
    ts.add_entry(entry("A", "B", "0.1", 1));
    let st = symbols(&[("P", 1)]);
    ts.complete(&st);
    assert_eq!(ts.get(&1).unwrap().get(0, 0), Some(0));
}

#[test]
fn trivial_getters() {
    let ts = AcRatioTableSet::new();
    assert_eq!(ts.get_ac_name(3), "");
    assert_eq!(ts.get_symbol_index("X"), 0);
    assert_eq!(ts.get_symbol_name(1), "");
    assert!(ts.dispatch_indexes().is_empty());
    assert_eq!(ts.get_dim(&SymbolTable::new()), (0, 0, 0));
}

#[test]
fn symbol_table_from_json() {
    let t = SymbolTable::from_json(r#"{"A": 1, "P": 2, "M": 3}"#).unwrap();
    assert_eq!(t.get_id("P"), 2);
    assert_eq!(t.get_id("A"), 1);
    let mut ids = t.all_ids();
    ids.sort();
    assert_eq!(ids, vec![1, 2, 3]);
    assert_eq!(t.name_by_index(1), "");
}

#[test]
fn symbol_table_rejects_bad_json() {
    assert_eq!(SymbolTable::from_json("[1, 2]").unwrap_err(), SymbolTableError::InvalidJson);
    assert_eq!(SymbolTable::from_json(r#"{"A": -1}"#).unwrap_err(), SymbolTableError::InvalidJson);
    assert_eq!(SymbolTable::from_json("{").unwrap_err(), SymbolTableError::InvalidJson);
}

#[test]
fn symbol_table_add_one_then_get_id() {
    let mut t = SymbolTable::new();
    t.add_one("P", 2);
    t.add_one("A", 1);
    assert_eq!(t.get_id("P"), 2);
    t.add_one("P", 5);
    assert_eq!(t.get_id("P"), 5);
    assert_eq!(t.get_id("A"), 1);
    assert_eq!(t.all_ids(), vec![5, 1]);
}

fn packet(ac: &[u8], product: &[u8], position: f64) -> Vec<u8> {
    let mut b = vec![0u8; PACKET_LEN];
    b[0..4].copy_from_slice(&0x15u32.to_ne_bytes());
    b[44..44 + product.len()].copy_from_slice(product);
    b[52..52 + ac.len()].copy_from_slice(ac);
    b[147..155].copy_from_slice(&position.to_be_bytes());
    b
}

#[test]
fn decode_packet_reads_fields() {
    let bytes = packet(b"AC123", b"SYM", 123.45);
    let f = decode_packet(&bytes).unwrap();
    assert_eq!(f.ac, "AC123");
    assert_eq!(f.symbol, "SYM");
    assert_eq!(f64::from_be_bytes(f.position), 123.45);
    let mut longer = bytes.clone();
    longer.push(7);
    assert_eq!(decode_packet(&longer).unwrap().ac, "AC123");
}

#[test]
fn decode_packet_needs_a_whole_packet() {
    assert!(decode_packet(&vec![0u8; PACKET_LEN - 1]).is_none());
    assert!(decode_packet(&[]).is_none());
    let f = decode_packet(&vec![0u8; PACKET_LEN]).unwrap();
    assert_eq!(f.ac, "");
    assert_eq!(f.symbol, "");
}

#[test]
fn decode_packet_replaces_invalid_utf8() {
    let bytes = packet(&[0x41, 0xff, 0x42], b"S\0Y", 1.0);
    let f = decode_packet(&bytes).unwrap();
    assert_eq!(f.ac, "A\u{fffd}B");
    assert_eq!(f.symbol, "S\0Y");
}

#[test]
fn config_default_is_empty() {
    let c = Config::default();
    assert_eq!(c.max_follow_depth, 0);
    assert_eq!(c.merge_interval, 0);
    assert!(c.ac_file.is_empty() && c.db_uri.is_empty() && c.symbol_file.is_empty());
    assert!(c.zmq_pos_sub_addr.is_empty() && c.zmq_pos_merged_pub_addr.is_empty());
}

#[test]
fn complete_twice_changes_nothing() {
    let mut ts = AcRatioTableSet::new();
    ts.add_entry(entry("A", "B", "0.1", 1));
    ts.add_entry(entry("C", "A", "2", SYMBOL_ID_ALL));
    ts.add_entry(entry("C", "B", "3", 7));
    ts.build_index();
    let st = symbols(&[("P", 1), ("Q", 2)]);
    ts.complete(&st);
    let snapshot = |ts: &AcRatioTableSet| {
        let mut cells = Vec::new();
        let mut keys: Vec<usize> = ts.keys().cloned().collect();
        keys.sort();
        for k in keys {
            let t = ts.get(&k).unwrap();
            let (r, c) = t.dims();
            for i in 0..r {
                for j in 0..c {
                    cells.push((k, i, j, t.get(i, j)));
                }
            }
        }
        cells
    };
    let first = snapshot(&ts);
    assert!(ts.fits_complete(&st));
    ts.complete(&st);
    assert_eq!(snapshot(&ts), first);
}

#[test]
fn add_entries_adds_in_order() {
    let mut ts = AcRatioTableSet::new();
    ts.add_entries(vec![
        entry("A", "B", "0.5", 1),
        entry("C", "D", "1", 0),
        entry("A", "B", "0.5", 1),
    ]);
    assert_eq!(ts.entry_count(), 2);
    assert_eq!(ts.entry(0).1, 2);
    assert_eq!(ts.entry(1).1, 1);
    assert_eq!(ts.entry(1).0.ac, "C");
    assert_eq!(ts.get_dim(&SymbolTable::new()), (0, 4, 4));
}

#[test]
fn new_table_with_an_empty_side() {
    let t = pfollow::ratio::AcRatioTable::new(0, 5);
    assert_eq!(t.dims(), (0, 5));
}

#[test]
fn test_symtable() {
    match SymbolTable::from_json("{\"P\": 2, \"Q\": 3}") {
        Ok(st) => {
            println!("{:?}", st);
            assert_eq!(st.get_id("P"), 2);
        }
        Err(err) => {
            println!("{:?}", err);
        }
    }
}
