//! The operator registry: a lexicographically sorted set of operator
//! spellings with longest-prefix lookup against the remaining input.
//!
//! The lookup deliberately scans every registered spelling: stopping
//! early once no longer spelling could follow would be sound only if the
//! spellings were ordered by length, which the lexicographic order does
//! not guarantee.

use vstd::prelude::*;

use vstd::string::StrSliceExecFns;
use crate::strutil::str_eq;

verus! {

/// Lexicographic (code-point-wise) strict order on character sequences.
pub open spec fn lex_lt(a: Seq<char>, b: Seq<char>) -> bool
    decreases a.len(),
{
    if b.len() == 0 {
        false
    } else if a.len() == 0 {
        true
    } else if a[0] != b[0] {
        (a[0] as u32) < (b[0] as u32)
    } else {
        lex_lt(a.skip(1), b.skip(1))
    }
}

/// Equality of code points is equality of characters.
proof fn char_eq_from_u32(x: char, y: char)
    requires
        x as u32 == y as u32,
    ensures
        x == y,
{
    vstd::utf8::char_u32_cast(x, x as u32);
    vstd::utf8::char_u32_cast(y, y as u32);
}

/// No sequence is lexicographically below itself.
pub proof fn lemma_lex_irreflexive(a: Seq<char>)
    ensures
        !lex_lt(a, a),
    decreases a.len(),
{
    if a.len() > 0 {
        lemma_lex_irreflexive(a.skip(1));
    }
}

/// Two sequences neither of which is below the other are equal.
pub proof fn lemma_lex_connected(a: Seq<char>, b: Seq<char>)
    requires
        !lex_lt(a, b),
        !lex_lt(b, a),
    ensures
        a == b,
    decreases a.len(),
{
    if a.len() == 0 || b.len() == 0 {
        assert(a =~= b);
    } else if a[0] == b[0] {
        lemma_lex_connected(a.skip(1), b.skip(1));
        assert(a.skip(1).len() == b.skip(1).len());
        assert(a.len() == b.len());
        assert forall|i: int| 0 <= i < a.len() implies a[i] == b[i] by {
            if i >= 1 {
                assert(a[i] == a.skip(1)[i - 1]);
                assert(b[i] == b.skip(1)[i - 1]);
            }
        }
        assert(a =~= b);
    } else {
        assert((a[0] as u32) == (b[0] as u32));
        char_eq_from_u32(a[0], b[0]);
    }
}

/// The order is transitive.
pub proof fn lemma_lex_transitive(a: Seq<char>, b: Seq<char>, c: Seq<char>)
    requires
        lex_lt(a, b),
        lex_lt(b, c),
    ensures
        lex_lt(a, c),
    decreases a.len(),
{
    if a.len() == 0 {
    } else {
        // lex_lt(a, b) forces b to be non-empty, and lex_lt(b, c) forces
        // c to be non-empty.
        if a[0] == b[0] && b[0] == c[0] {
            lemma_lex_transitive(a.skip(1), b.skip(1), c.skip(1));
        } else if a[0] != c[0] {
            assert((a[0] as u32) < (c[0] as u32));
        } else {
            // Equal endpoints with a strict step in between contradict
            // the order on code points.
            char_eq_from_u32(a[0], a[0]);
            assert(false) by {
                assert((a[0] as u32) <= (b[0] as u32));
                assert((b[0] as u32) <= (c[0] as u32));
                assert((a[0] as u32) < (b[0] as u32) || (b[0] as u32) < (c[0] as u32));
            }
        }
    }
}

/// Dropping an equal prefix of both sequences does not change their
/// order.
pub proof fn lemma_lex_skip(a: Seq<char>, b: Seq<char>, i: int)
    requires
        0 <= i <= a.len(),
        i <= b.len(),
        forall|j: int| 0 <= j < i ==> a[j] == b[j],
    ensures
        lex_lt(a, b) == lex_lt(a.skip(i), b.skip(i)),
    decreases i,
{
    if i == 0 {
        assert(a.skip(0) =~= a);
        assert(b.skip(0) =~= b);
    } else {
        assert(a.len() > 0 && b.len() > 0 && a[0] == b[0]);
        let a1 = a.skip(1);
        let b1 = b.skip(1);
        assert(forall|j: int| 0 <= j < i - 1 ==> a1[j] == a[j + 1] && b1[j] == b[j + 1]);
        lemma_lex_skip(a1, b1, i - 1);
        assert(a1.skip(i - 1) =~= a.skip(i));
        assert(b1.skip(i - 1) =~= b.skip(i));
    }
}

/// Character-wise lexicographic comparison of two string slices.
pub fn str_lt(a: &str, b: &str) -> (r: bool)
    ensures
        r == lex_lt(a@, b@),
{
    let la = a.unicode_len();
    let lb = b.unicode_len();
    let mut i: usize = 0;
    while i < la && i < lb
        invariant
            la == a@.len(),
            lb == b@.len(),
            i <= la,
            i <= lb,
            forall|j: int| 0 <= j < i ==> a@[j] == b@[j],
        decreases la - i,
    {
        let ca = a.get_char(i);
        let cb = b.get_char(i);
        if (ca as u32) < (cb as u32) {
            proof {
                lemma_lex_skip(a@, b@, i as int);
            }
            return true;
        }
        if (cb as u32) < (ca as u32) {
            proof {
                lemma_lex_skip(a@, b@, i as int);
            }
            return false;
        }
        proof {
            char_eq_from_u32(ca, cb);
        }
        i = i + 1;
    }
    proof {
        lemma_lex_skip(a@, b@, i as int);
    }
    la < lb
}

/// Whether `pre` is a prefix of `s`.
pub open spec fn is_prefix_of(pre: Seq<char>, s: Seq<char>) -> bool {
    pre.len() <= s.len() && pre == s.subrange(0, pre.len() as int)
}

/// A sorted set of operator spellings.
pub struct OperatorRegistry {
    pub spellings: Vec<String>,
}

/// The longest spelling among the first `k` entries of `sp` that is a
/// non-empty prefix of `rest`; on equal lengths the earlier entry wins.
pub open spec fn best_upto(sp: Seq<Seq<char>>, rest: Seq<char>, k: int) -> Option<Seq<char>>
    decreases k,
{
    if k <= 0 {
        None::<Seq<char>>
    } else {
        let prev = best_upto(sp, rest, k - 1);
        let cand = sp[k - 1];
        if cand.len() > 0 && is_prefix_of(cand, rest) && (prev matches None
            || (prev matches Some(p) && p.len() < cand.len())) {
            Some(cand)
        } else {
            prev
        }
    }
}

impl OperatorRegistry {
    /// Strictly sorted, hence free of duplicates.
    pub open spec fn wf(self) -> bool {
        forall|i: int, j: int|
            0 <= i < j < self.spellings@.len() ==> lex_lt(self.spellings@[i]@, self.spellings@[j]@)
    }

    /// Whether `text` is a registered spelling.
    pub open spec fn has_spelling(self, text: Seq<char>) -> bool {
        exists|i: int| 0 <= i < self.spellings@.len() && self.spellings@[i]@ == text
    }

    /// The longest registered spelling that is a non-empty prefix of
    /// `rest`, if any.
    pub open spec fn best_match(self, rest: Seq<char>) -> Option<Seq<char>> {
        best_upto(self.spellings@.map_values(|s: String| s@), rest, self.spellings@.len() as int)
    }

    pub fn new() -> (r: OperatorRegistry)
        ensures
            r.wf(),
            r.spellings@.len() == 0,
    {
        OperatorRegistry { spellings: Vec::new() }
    }

    /// Insert `op` at the position binary search determines, keeping the
    /// set sorted; a spelling that is already present is left alone.
    pub fn register(&mut self, op: &str)
        requires
            old(self).wf(),
        ensures
            final(self).wf(),
            final(self).has_spelling(op@),
            forall|t: Seq<char>|
                #[trigger] final(self).has_spelling(t) == (old(self).has_spelling(t) || t == op@),
            old(self).has_spelling(op@) ==> *final(self) == *old(self),
    {
        let n = self.spellings.len();
        let mut lo: usize = 0;
        let mut hi: usize = n;
        while lo < hi
            invariant
                lo <= hi <= n,
                n == self.spellings@.len(),
                self.wf(),
                forall|k: int| 0 <= k < lo ==> lex_lt(self.spellings@[k]@, op@),
                forall|k: int| hi <= k < n ==> !lex_lt(self.spellings@[k]@, op@),
            decreases hi - lo,
        {
            let mid = lo + (hi - lo) / 2;
            if str_lt(self.spellings[mid].as_str(), op) {
                proof {
                    assert forall|k: int| 0 <= k < mid + 1 implies lex_lt(
                        self.spellings@[k]@,
                        op@,
                    ) by {
                        if k < mid {
                            lemma_lex_transitive(
                                self.spellings@[k]@,
                                self.spellings@[mid as int]@,
                                op@,
                            );
                        }
                    }
                }
                lo = mid + 1;
            } else {
                proof {
                    assert forall|k: int| mid <= k < n implies !lex_lt(
                        self.spellings@[k]@,
                        op@,
                    ) by {
                        if k > mid && lex_lt(self.spellings@[k]@, op@) {
                            lemma_lex_transitive(
                                self.spellings@[mid as int]@,
                                self.spellings@[k]@,
                                op@,
                            );
                        }
                    }
                }
                hi = mid;
            }
        }
        if lo < n && str_eq(self.spellings[lo].as_str(), op) {
            return ;
        }
        let ghost pre = *self;
        proof {
            assert forall|k: int| 0 <= k < n implies pre.spellings@[k]@ != op@ by {
                if k < lo {
                    if pre.spellings@[k]@ == op@ {
                        lemma_lex_irreflexive(op@);
                    }
                } else if k > lo && pre.spellings@[k]@ == op@ {
                    // sp[lo] is not below op, so op is not above sp[lo];
                    // but op sits strictly above sp[lo] in the sorted run.
                    lemma_lex_transitive(pre.spellings@[lo as int]@, pre.spellings@[k]@, op@);
                }
            }
            assert(!pre.has_spelling(op@));
        }
        self.spellings.insert(lo, op.to_owned());
        proof {
            let post = self.spellings@;
            assert(post[lo as int]@ == op@);
            assert forall|a: int, b: int| 0 <= a < b < post.len() implies lex_lt(
                post[a]@,
                post[b]@,
            ) by {
                let la = lo as int;
                if a < la && b == la {
                } else if a == la && b > la {
                    assert(post[b] == pre.spellings@[b - 1]);
                    assert(!lex_lt(pre.spellings@[b - 1]@, op@));
                    if pre.spellings@[b - 1]@ != op@ {
                        lemma_lex_connected_helper(op@, pre.spellings@[b - 1]@);
                    }
                } else if a < la && b > la {
                    assert(post[a] == pre.spellings@[a] && post[b] == pre.spellings@[b - 1]);
                } else if a > la && b > la {
                    assert(post[a] == pre.spellings@[a - 1] && post[b] == pre.spellings@[b - 1]);
                }
            }
            assert forall|t: Seq<char>| #[trigger]
                self.has_spelling(t) == (pre.has_spelling(t) || t == op@) by {
                if self.has_spelling(t) {
                    let i = choose|i: int| 0 <= i < post.len() && post[i]@ == t;
                    if i < lo as int {
                        assert(pre.spellings@[i]@ == t);
                    } else if i > lo as int {
                        assert(pre.spellings@[i - 1]@ == t);
                    }
                }
                if pre.has_spelling(t) {
                    let i = choose|i: int| 0 <= i < pre.spellings@.len() && pre.spellings@[i]@ == t;
                    if i < lo as int {
                        assert(post[i]@ == t);
                    } else {
                        assert(post[i + 1]@ == t);
                    }
                }
            }
        }
    }

    /// The longest registered spelling that is a prefix of `source` at
    /// character position `start`, if any.
    ///
    /// Every spelling is inspected; an early exit on length would presuppose
    /// a length-sorted registry, which a lexicographically sorted one is
    /// not.
    pub fn longest_match<'a>(&'a self, source: &str, start: usize) -> (r: Option<&'a String>)
        requires
            start <= source@.len(),
        ensures
            match r {
                None => self.best_match(source@.skip(start as int)) is None,
                Some(m) => {
                    &&& self.best_match(source@.skip(start as int)) == Some(m@)
                    &&& self.has_spelling(m@)
                },
            },
    {
        let ghost rest = source@.skip(start as int);
        let ghost spv = self.spellings@.map_values(|s: String| s@);
        let n = self.spellings.len();
        let mut best_idx: usize = 0;
        let mut best_len: usize = 0;
        let mut k: usize = 0;
        while k < n
            invariant
                n == self.spellings@.len(),
                k <= n,
                start <= source@.len(),
                rest == source@.skip(start as int),
                spv == self.spellings@.map_values(|s: String| s@),
                best_len == 0 ==> best_upto(spv, rest, k as int) is None,
                best_len > 0 ==> {
                    &&& best_idx < n
                    &&& best_upto(spv, rest, k as int) == Some(self.spellings@[best_idx as int]@)
                    &&& self.spellings@[best_idx as int]@.len() == best_len
                },
            decreases n - k,
        {
            let op = &self.spellings[k];
            let oplen = op.as_str().unicode_len();
            if oplen > best_len && is_prefix_at(op.as_str(), source, start) {
                best_idx = k;
                best_len = oplen;
            }
            proof {
                assert(spv[k as int] == self.spellings@[k as int]@);
            }
            k = k + 1;
        }
        if best_len > 0 {
            Some(&self.spellings[best_idx])
        } else {
            None
        }
    }
}

/// Connectedness, phrased for the insert proof: a sequence that is not
/// below `b` and differs from it is above it.
proof fn lemma_lex_connected_helper(a: Seq<char>, b: Seq<char>)
    requires
        !lex_lt(b, a),
        a != b,
    ensures
        lex_lt(a, b),
{
    if !lex_lt(a, b) {
        lemma_lex_connected(a, b);
    }
}

/// Whether `op` occurs in `source` as a prefix starting at character
/// position `start`.
pub fn is_prefix_at(op: &str, source: &str, start: usize) -> (r: bool)
    requires
        start <= source@.len(),
    ensures
        r == is_prefix_of(op@, source@.skip(start as int)),
{
    let ghost rest = source@.skip(start as int);
    let m = op.unicode_len();
    let n = source.unicode_len();
    if m > n - start {
        return false;
    }
    let mut j: usize = 0;
    while j < m
        invariant
            m == op@.len(),
            n == source@.len(),
            start <= n,
            m <= n - start,
            rest == source@.skip(start as int),
            j <= m,
            forall|i: int| 0 <= i < j ==> op@[i] == rest[i],
        decreases m - j,
    {
        if op.get_char(j) != source.get_char(start + j) {
            proof {
                assert(rest[j as int] == source@[start + j]);
                if is_prefix_of(op@, rest) {
                    assert(op@[j as int] == rest.subrange(0, m as int)[j as int]);
                }
            }
            return false;
        }
        proof {
            assert(rest[j as int] == source@[start + j]);
        }
        j = j + 1;
    }
    proof {
        assert(op@ =~= rest.subrange(0, m as int));
    }
    true
}

/// The reported match is maximal: no registered spelling that prefixes
/// the remaining input is longer, and when none prefixes it there is no
/// match.
pub proof fn lemma_best_upto_maximal(sp: Seq<Seq<char>>, rest: Seq<char>, k: int)
    ensures
        match best_upto(sp, rest, k) {
            Some(m) => {
                &&& exists|i: int| 0 <= i < k && sp[i] == m
                &&& m.len() > 0
                &&& is_prefix_of(m, rest)
                &&& forall|j: int|
                    0 <= j < k && sp[j].len() > 0 && is_prefix_of(#[trigger] sp[j], rest)
                        ==> sp[j].len() <= m.len()
            },
            None => forall|j: int|
                0 <= j < k ==> !(sp[j].len() > 0 && is_prefix_of(#[trigger] sp[j], rest)),
        },
    decreases k,
{
    if k > 0 {
        lemma_best_upto_maximal(sp, rest, k - 1);
    }
}

/// The operator token the tokenizer emits at a position is never shorter
/// than any other registered spelling that also prefixes the remaining
/// input at that position.
pub proof fn lemma_longest_operator_match(reg: OperatorRegistry, rest: Seq<char>)
    ensures
        match reg.best_match(rest) {
            Some(m) => {
                &&& reg.has_spelling(m)
                &&& m.len() > 0
                &&& is_prefix_of(m, rest)
                &&& forall|t: Seq<char>|
                    reg.has_spelling(t) && t.len() > 0 && is_prefix_of(t, rest) ==> t.len()
                        <= m.len()
            },
            None => forall|t: Seq<char>|
                reg.has_spelling(t) ==> !(t.len() > 0 && is_prefix_of(t, rest)),
        },
{
    let spv = reg.spellings@.map_values(|s: String| s@);
    let n = reg.spellings@.len() as int;
    lemma_best_upto_maximal(spv, rest, n);
    match reg.best_match(rest) {
        Some(m) => {
            let i = choose|i: int| 0 <= i < n && spv[i] == m;
            assert(reg.spellings@[i]@ == m);
            assert forall|t: Seq<char>|
                reg.has_spelling(t) && t.len() > 0 && is_prefix_of(t, rest) implies t.len()
                <= m.len() by {
                let j = choose|j: int| 0 <= j < n && reg.spellings@[j]@ == t;
                assert(spv[j] == t);
            }
        },
        None => {
            assert forall|t: Seq<char>| reg.has_spelling(t) implies !(t.len() > 0 && is_prefix_of(
                t,
                rest,
            )) by {
                let j = choose|j: int| 0 <= j < n && reg.spellings@[j]@ == t;
                assert(spv[j] == t);
            }
        },
    }
}

} // verus!
