//! The runner's settings.

use vstd::prelude::*;

verus! {

/// Settings of a follow runner.
#[derive(Debug, Clone)]
pub struct Config {
    /// How many times positions are multiplied through the ratio tables.
    pub max_follow_depth: u32,
    /// Seconds between two merges of positions.
    pub merge_interval: u64,
    /// The file of follow entries, one `ac,fac,ratio,symbol` per line.
    pub ac_file: String,
    /// The database to read entries from (may be empty).
    pub db_uri: String,
    /// The JSON file of symbol names and ids.
    pub symbol_file: String,
    /// Where positions are subscribed from.
    pub zmq_pos_sub_addr: String,
    /// Where merged positions are published.
    pub zmq_pos_merged_pub_addr: String,
}

impl Default for Config {
    fn default() -> (c: Self)
        ensures
            c.max_follow_depth == 0,
            c.merge_interval == 0,
            c.ac_file@ == Seq::<char>::empty(),
            c.db_uri@ == Seq::<char>::empty(),
            c.symbol_file@ == Seq::<char>::empty(),
            c.zmq_pos_sub_addr@ == Seq::<char>::empty(),
            c.zmq_pos_merged_pub_addr@ == Seq::<char>::empty(),
    {
        Config {
            max_follow_depth: 0,
            merge_interval: 0,
            ac_file: String::new(),
            db_uri: String::new(),
            symbol_file: String::new(),
            zmq_pos_sub_addr: String::new(),
            zmq_pos_merged_pub_addr: String::new(),
        }
    }
}

} // verus!
