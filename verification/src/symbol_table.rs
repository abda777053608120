//! The symbol table: three independent hash tables, one for identifiers, one
//! for integer constants, one for string constants, each handing out stable
//! `(bucket, slot)` positions. Adding is find-or-insert; there is no removal.

use vstd::prelude::*;
use vstd::string::StringExecFns;
use crate::hash_table::{MyHashMap, added, lemma_insert_then_find};

verus! {

/// Which of the three sub-tables a position points into.
#[derive(Debug, Clone, Copy, PartialEq, Eq, Structural)]
pub enum SymbolTableType {
    ID,
    INT,
    STRING,
}

/// A stable coordinate into one sub-table of the symbol table.
#[derive(Debug, Clone, Copy, PartialEq, Eq, Structural)]
pub struct SymbolTablePosition {
    pub tp: SymbolTableType,
    pub bucket: usize,
    pub item: usize,
}

#[derive(Debug)]
pub struct SymbolTable {
    id_hash_table: MyHashMap<String>,
    int_const_hash_table: MyHashMap<i32>,
    string_const_hash_table: MyHashMap<String>,
}

impl SymbolTable {
    /// The identifier sub-table.
    pub closed spec fn ids(&self) -> MyHashMap<String> {
        self.id_hash_table
    }

    /// The integer-constant sub-table.
    pub closed spec fn ints(&self) -> MyHashMap<i32> {
        self.int_const_hash_table
    }

    /// The string-constant sub-table.
    pub closed spec fn strs(&self) -> MyHashMap<String> {
        self.string_const_hash_table
    }

    pub open spec fn well_formed(&self) -> bool {
        &&& self.ids().well_formed()
        &&& self.ints().well_formed()
        &&& self.strs().well_formed()
    }

    pub fn new(size: usize) -> (r: Self)
        requires
            size >= 1,
        ensures
            r.well_formed(),
            r.ids().capacity() == size as int,
            r.ints().capacity() == size as int,
            r.strs().capacity() == size as int,
            r.ids().all_buckets_empty(),
            r.ints().all_buckets_empty(),
            r.strs().all_buckets_empty(),
    {
        Self {
            id_hash_table: MyHashMap::new(size),
            int_const_hash_table: MyHashMap::new(size),
            string_const_hash_table: MyHashMap::new(size),
        }
    }

    pub fn add_id(&mut self, name: String) -> (r: (usize, usize))
        requires
            old(self).well_formed(),
        ensures
            final(self).well_formed(),
            added(old(self).ids(), final(self).ids(), name@, r),
            final(self).ids().find_pos(name@) == Some((r.0 as int, r.1 as int)),
            final(self).ints() == old(self).ints(),
            final(self).strs() == old(self).strs(),
    {
        let ghost v = name@;
        if let Some(p) = self.id_hash_table.get(&name) {
            return p;
        }
        let ghost m0 = self.id_hash_table;
        let r = match self.id_hash_table.insert(name) {
            Ok(p) => p,
            Err(()) => {
                proof {
                    assert(false);
                }
                (0, 0)
            },
        };
        proof {
            lemma_insert_then_find(m0, self.id_hash_table, v);
        }
        r
    }

    pub fn add_int_const(&mut self, int_const: i32) -> (r: (usize, usize))
        requires
            old(self).well_formed(),
        ensures
            final(self).well_formed(),
            added(old(self).ints(), final(self).ints(), int_const, r),
            final(self).ints().find_pos(int_const) == Some((r.0 as int, r.1 as int)),
            final(self).ids() == old(self).ids(),
            final(self).strs() == old(self).strs(),
    {
        if let Some(p) = self.int_const_hash_table.get(&int_const) {
            return p;
        }
        let ghost m0 = self.int_const_hash_table;
        let r = match self.int_const_hash_table.insert(int_const) {
            Ok(p) => p,
            Err(()) => {
                proof {
                    assert(false);
                }
                (0, 0)
            },
        };
        proof {
            lemma_insert_then_find(m0, self.int_const_hash_table, int_const);
        }
        r
    }

    pub fn add_string_const(&mut self, string: String) -> (r: (usize, usize))
        requires
            old(self).well_formed(),
        ensures
            final(self).well_formed(),
            added(old(self).strs(), final(self).strs(), string@, r),
            final(self).strs().find_pos(string@) == Some((r.0 as int, r.1 as int)),
            final(self).ids() == old(self).ids(),
            final(self).ints() == old(self).ints(),
    {
        let ghost v = string@;
        if let Some(p) = self.string_const_hash_table.get(&string) {
            return p;
        }
        let ghost m0 = self.string_const_hash_table;
        let r = match self.string_const_hash_table.insert(string) {
            Ok(p) => p,
            Err(()) => {
                proof {
                    assert(false);
                }
                (0, 0)
            },
        };
        proof {
            lemma_insert_then_find(m0, self.string_const_hash_table, v);
        }
        r
    }

    pub fn find_id(&self, name: &str) -> (r: Option<(usize, usize)>)
        requires
            self.well_formed(),
        ensures
            r is Some <==> self.ids().contains_view(name@),
            match r {
                Some(p) => Some((p.0 as int, p.1 as int)) == self.ids().find_pos(name@),
                None => true,
            },
    {
        let key = String::from_str(name);
        self.id_hash_table.get(&key)
    }

    pub fn find_int(&self, int_const: &i32) -> (r: Option<(usize, usize)>)
        requires
            self.well_formed(),
        ensures
            r is Some <==> self.ints().contains_view(*int_const),
            match r {
                Some(p) => Some((p.0 as int, p.1 as int)) == self.ints().find_pos(*int_const),
                None => true,
            },
    {
        self.int_const_hash_table.get(int_const)
    }

    pub fn find_string(&self, string: &str) -> (r: Option<(usize, usize)>)
        requires
            self.well_formed(),
        ensures
            r is Some <==> self.strs().contains_view(string@),
            match r {
                Some(p) => Some((p.0 as int, p.1 as int)) == self.strs().find_pos(string@),
                None => true,
            },
    {
        let key = String::from_str(string);
        self.string_const_hash_table.get(&key)
    }

    /// The number of buckets of the identifier sub-table.
    pub fn id_bucket_count(&self) -> (n: usize)
        ensures
            n as int == self.ids().buckets().len(),
    {
        self.id_hash_table.bucket_count()
    }

    /// The number of buckets of the integer-constant sub-table.
    pub fn int_bucket_count(&self) -> (n: usize)
        ensures
            n as int == self.ints().buckets().len(),
    {
        self.int_const_hash_table.bucket_count()
    }

    /// The number of buckets of the string-constant sub-table.
    pub fn string_bucket_count(&self) -> (n: usize)
        ensures
            n as int == self.strs().buckets().len(),
    {
        self.string_const_hash_table.bucket_count()
    }

    pub fn get_id_by_position(&self, position: &(usize, usize)) -> (r: Option<&String>)
        ensures
            r is Some <==> ((position.0 as int) < self.ids().buckets().len() && (
            position.1 as int) < self.ids().buckets()[position.0 as int].len()),
            match r {
                Some(k) => k@ == self.ids().buckets()[position.0 as int][position.1 as int],
                None => true,
            },
    {
        self.id_hash_table.get_by_position(position)
    }

    pub fn get_int_by_position(&self, position: &(usize, usize)) -> (r: Option<&i32>)
        ensures
            r is Some <==> ((position.0 as int) < self.ints().buckets().len() && (
            position.1 as int) < self.ints().buckets()[position.0 as int].len()),
            match r {
                Some(k) => *k == self.ints().buckets()[position.0 as int][position.1 as int],
                None => true,
            },
    {
        self.int_const_hash_table.get_by_position(position)
    }

    pub fn get_string_by_position(&self, position: &(usize, usize)) -> (r: Option<&String>)
        ensures
            r is Some <==> ((position.0 as int) < self.strs().buckets().len() && (
            position.1 as int) < self.strs().buckets()[position.0 as int].len()),
            match r {
                Some(k) => k@ == self.strs().buckets()[position.0 as int][position.1 as int],
                None => true,
            },
    {
        self.string_const_hash_table.get_by_position(position)
    }
}

/// Adding the same identifier twice hands out the same position both times,
/// and the second call changes nothing.
pub proof fn lemma_add_id_idempotent(
    st0: SymbolTable,
    st1: SymbolTable,
    st2: SymbolTable,
    name: Seq<char>,
    p1: (usize, usize),
    p2: (usize, usize),
)
    requires
        st0.well_formed(),
        added(st0.ids(), st1.ids(), name, p1),
        added(st1.ids(), st2.ids(), name, p2),
    ensures
        p2 == p1,
        st2.ids() == st1.ids(),
{
    crate::hash_table::lemma_added_idempotent(st0.ids(), st1.ids(), st2.ids(), name, p1, p2);
}

/// The sub-tables are independent: adding a string constant leaves every
/// identifier lookup exactly as it was.
pub proof fn lemma_sub_tables_independent(
    st0: SymbolTable,
    st1: SymbolTable,
    string: Seq<char>,
    p: (usize, usize),
    name: Seq<char>,
)
    requires
        added(st0.strs(), st1.strs(), string, p),
        st1.ids() == st0.ids(),
    ensures
        st1.ids().contains_view(name) == st0.ids().contains_view(name),
        st1.ids().find_pos(name) == st0.ids().find_pos(name),
{
}

} // verus!
