//! Where snapshots are kept, and its report to clients.
use vstd::prelude::*;
use vstd::string::StringExecFns;
use crate::values::{Value, ValueModel, values_model};

verus! {

/// The snapshot directory and file name.
#[derive(Debug)]
pub struct Config {
    dir: String,
    dbfilename: String,
}

/// The reply that names a setting and its value.
pub open spec fn setting_reply(name: Seq<char>, value: Seq<char>) -> ValueModel {
    ValueModel::Array(seq![ValueModel::Bulk(name), ValueModel::Bulk(value)])
}

impl Config {
    pub fn new(dir: &str, dbfilename: &str) -> (r: Config)
        ensures
            r.dir_text() == dir@,
            r.file_text() == dbfilename@,
    {
        Config { dir: String::from_str(dir), dbfilename: String::from_str(dbfilename) }
    }

    /// The snapshot directory.
    pub closed spec fn dir_text(&self) -> Seq<char> {
        self.dir@
    }

    /// The snapshot file name.
    pub closed spec fn file_text(&self) -> Seq<char> {
        self.dbfilename@
    }

    /// The reply `["dir", <directory>]`.
    pub fn dir(&self) -> (r: Value)
        ensures
            r@ == setting_reply(seq!['d', 'i', 'r'], self.dir_text()),
    {
        let name = String::from_str("dir");
        proof {
            reveal_strlit("dir");
        }
        assert(name@ =~= seq!['d', 'i', 'r']);
        let ghost name_text = name@;
        let mut items: Vec<Value> = Vec::new();
        items.push(Value::BulkString(name));
        items.push(Value::BulkString(self.dir.clone()));
        let ghost ms = values_model(items@);
        assert(ms =~= seq![ValueModel::Bulk(name_text), ValueModel::Bulk(self.dir@)]);
        let r = Value::Array(items);
        assert(r@->Array_0 =~= ms);
        assert(r@->Array_0 =~= seq![ValueModel::Bulk(seq!['d', 'i', 'r']), ValueModel::Bulk(self.dir_text())]);
        r
    }

    /// The reply `["dbfilename", <file name>]`.
    pub fn dbfilename(&self) -> (r: Value)
        ensures
            r@ == setting_reply(seq!['d', 'b', 'f', 'i', 'l', 'e', 'n', 'a', 'm', 'e'], self.file_text()),
    {
        let name = String::from_str("dbfilename");
        proof {
            reveal_strlit("dbfilename");
        }
        assert(name@ =~= seq!['d', 'b', 'f', 'i', 'l', 'e', 'n', 'a', 'm', 'e']);
        let ghost name_text = name@;
        let mut items: Vec<Value> = Vec::new();
        items.push(Value::BulkString(name));
        items.push(Value::BulkString(self.dbfilename.clone()));
        let ghost ms = values_model(items@);
        assert(ms =~= seq![ValueModel::Bulk(name_text), ValueModel::Bulk(self.dbfilename@)]);
        let r = Value::Array(items);
        assert(r@->Array_0 =~= ms);
        assert(r@->Array_0 =~= seq![
            ValueModel::Bulk(seq!['d', 'b', 'f', 'i', 'l', 'e', 'n', 'a', 'm', 'e']),
            ValueModel::Bulk(self.file_text()),
        ]);
        r
    }

    /// The path of the snapshot file: the directory followed by the file name.
    pub fn snapshot_path(&self) -> (r: String)
        ensures
            r@ == self.dir_text() + self.file_text(),
    {
        self.dir.clone().concat(self.dbfilename.as_str())
    }
}

} // verus!
