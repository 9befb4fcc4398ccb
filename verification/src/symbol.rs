//! String interning: a `Table` owns every distinct text ever interned on
//! it and hands out `Symbol` handles; two handles compare equal exactly
//! when they were minted by the same table for the same text, so equality
//! of symbols is a constant-time identity check rather than a
//! character-wise comparison.
//!
//! Each table carries a `brand` drawn from a randomly seeded hasher, so
//! handles minted by different tables compare unequal; comparing symbols
//! across tables is a usage error that this branding makes visible.

use vstd::prelude::*;

use std::collections::hash_map::RandomState;
use std::hash::BuildHasher;
use crate::strutil::str_eq;

verus! {

/// An immutable handle to a text interned in a `Table`.
///
/// Equality compares the minting table's brand and the entry index, never
/// the characters.
#[derive(Debug, Clone, Copy, PartialEq, Eq, Hash, Structural)]
pub struct Symbol {
    pub brand: u64,
    pub id: usize,
}

/// A table of interned texts: one entry per distinct text, grown by every
/// intern of a new text and never shrunk.
pub struct Table {
    pub brand: u64,
    pub entries: Vec<String>,
}

/// Relies on `RandomState::new`: a hasher state seeded from per-instance
/// random data, so that two states hash a key to the same value only by
/// coincidence.
#[verifier::external_body]
fn fresh_random_state() -> (r: RandomState) {
    RandomState::new()
}

/// Relies on `BuildHasher::hash_one` for `RandomState`: the hash of `x`
/// under this state's seed.
#[verifier::external_body]
fn state_key(s: &RandomState, x: u64) -> (r: u64) {
    s.hash_one(x)
}

impl Table {
    /// No two entries hold the same text, and the entry count is a
    /// representable index.
    pub open spec fn wf(self) -> bool {
        &&& self.entries@.len() <= usize::MAX
        &&& forall|i: int, j: int|
            0 <= i < j < self.entries@.len() ==> self.entries@[i]@ != self.entries@[j]@
    }

    /// Whether `text` has been interned on this table.
    pub open spec fn contains_text(self, text: Seq<char>) -> bool {
        exists|i: int| 0 <= i < self.entries@.len() && self.entries@[i]@ == text
    }

    /// The entry index holding `text` (meaningful when `contains_text`).
    pub open spec fn id_of(self, text: Seq<char>) -> int {
        choose|i: int| 0 <= i < self.entries@.len() && self.entries@[i]@ == text
    }

    /// The handle this table assigns to `text` (meaningful when
    /// `contains_text`).
    pub open spec fn symbol_for(self, text: Seq<char>) -> Symbol {
        Symbol { brand: self.brand, id: self.id_of(text) as usize }
    }

    pub fn new() -> (r: Table)
        ensures
            r.wf(),
            r.entries@.len() == 0,
    {
        Table { brand: state_key(&fresh_random_state(), 0), entries: Vec::new() }
    }

    /// Return the handle for `source`, interning it first if this table
    /// has not seen it yet.
    pub fn intern(&mut self, source: &str) -> (r: Symbol)
        requires
            old(self).wf(),
        ensures
            intern_rel(*old(self), *final(self), source@, r),
    {
        let n = self.entries.len();
        let mut i: usize = 0;
        while i < n
            invariant
                n == self.entries@.len(),
                i <= n,
                self.wf(),
                forall|k: int| 0 <= k < i ==> self.entries@[k]@ != source@,
            decreases n - i,
        {
            if str_eq(self.entries[i].as_str(), source) {
                proof {
                    let j = self.id_of(source@);
                    assert(0 <= j < self.entries@.len() && self.entries@[j]@ == source@);
                    if j != i as int {
                        assert(false);
                    }
                }
                return Symbol { brand: self.brand, id: i };
            }
            i = i + 1;
        }
        let ghost pre = *self;
        let sym = Symbol::from_str_table(source, self);
        self.entries.push(source.to_owned());
        proof {
            assert(self.entries@.len() == self.entries.len());
            assert(!pre.contains_text(source@));
            assert(self.entries@[n as int]@ == source@);
            assert forall|a: int, b: int|
                0 <= a < b < self.entries@.len() implies self.entries@[a]@ != self.entries@[b]@ by {
                if b < n as int {
                    assert(pre.entries@[a]@ != pre.entries@[b]@);
                }
            }
            let j = self.id_of(source@);
            assert(0 <= j < self.entries@.len() && self.entries@[j]@ == source@);
            if j != n as int {
                assert(false);
            }
        }
        sym
    }

    /// Whether `source` has already been interned, without interning it.
    pub fn is_interned(&self, source: &str) -> (r: bool)
        ensures
            r == self.contains_text(source@),
    {
        let n = self.entries.len();
        let mut i: usize = 0;
        while i < n
            invariant
                n == self.entries@.len(),
                i <= n,
                forall|k: int| 0 <= k < i ==> self.entries@[k]@ != source@,
            decreases n - i,
        {
            if str_eq(self.entries[i].as_str(), source) {
                return true;
            }
            i = i + 1;
        }
        false
    }
}

/// What one call of `Table::intern` does: `post` is `pre` with `text`
/// interned (unchanged if it already was), and `s` is the handle `post`
/// assigns to `text`.
pub open spec fn intern_rel(pre: Table, post: Table, text: Seq<char>, s: Symbol) -> bool {
    &&& post.wf()
    &&& post.brand == pre.brand
    &&& post.contains_text(text)
    &&& s == post.symbol_for(text)
    &&& s.id < post.entries@.len()
    &&& post.entries@[s.id as int]@ == text
    &&& (pre.contains_text(text) ==> post == pre)
    &&& (!pre.contains_text(text) ==> {
        &&& post.entries@.len() == pre.entries@.len() + 1
        &&& (forall|k: int| 0 <= k < pre.entries@.len() ==> post.entries@[k] == pre.entries@[k])
        &&& s.id == pre.entries@.len()
    })
}

impl Symbol {
    /// Mint the handle that `table` will assign to the next new text.
    ///
    /// `Table::intern` pairs this with pushing the entry; a handle minted
    /// here without that push refers to no entry yet.
    #[allow(unused_variables)]
    pub fn from_str_table(source: &str, table: &Table) -> (r: Symbol)
        ensures
            r.brand == table.brand,
            r.id == table.entries@.len(),
    {
        Symbol { brand: table.brand, id: table.entries.len() }
    }

    /// Whether `other` was minted by the same table as `self`.
    pub fn check_table(&self, other: &Symbol) -> (r: bool)
        ensures
            r == (self.brand == other.brand),
    {
        self.brand == other.brand
    }
}

/// Interning identity: a second intern of the same text on the same table
/// returns the identical handle and leaves the table unchanged.
pub proof fn lemma_intern_identity(
    pre: Table,
    mid: Table,
    post: Table,
    text: Seq<char>,
    s1: Symbol,
    s2: Symbol,
)
    requires
        intern_rel(pre, mid, text, s1),
        intern_rel(mid, post, text, s2),
    ensures
        s2 == s1,
        post == mid,
{
}

/// On one well-formed table, two interned texts get the same handle
/// exactly when they are the same text.
pub proof fn lemma_symbol_text_identity(t: Table, x: Seq<char>, y: Seq<char>)
    requires
        t.wf(),
        t.contains_text(x),
        t.contains_text(y),
    ensures
        (t.symbol_for(x) == t.symbol_for(y)) <==> (x == y),
{
    let i = t.id_of(x);
    let j = t.id_of(y);
    assert(0 <= i < t.entries@.len() && t.entries@[i]@ == x);
    assert(0 <= j < t.entries@.len() && t.entries@[j]@ == y);
    if t.symbol_for(x) == t.symbol_for(y) {
        assert(i as usize == j as usize);
        assert(i == j);
        assert(x == y);
    }
}

/// Handles minted by tables with different brands are never equal,
/// whatever texts they stand for.
pub proof fn lemma_distinct_tables(t1: Table, t2: Table, a: Symbol, b: Symbol)
    requires
        a.brand == t1.brand,
        b.brand == t2.brand,
        t1.brand != t2.brand,
    ensures
        a != b,
{
}

} // verus!
