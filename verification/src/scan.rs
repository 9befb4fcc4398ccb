//! The tokenizer's grammar, as pure functions over the source character
//! sequence. `scan_at` says, for any position, which token the grammar
//! produces there, where it ends, and what it carries; the executable
//! tokenizer is proved to return exactly this.

use vstd::prelude::*;

use crate::chars::{digit_val, is_space, is_unicode_scalar, is_xid_continue, is_xid_start,
    spec_radix_of};
use crate::registry::{best_upto, is_prefix_of};

verus! {

/// The end of the run of characters satisfying `f` that starts at `p`.
pub open spec fn scan_while(s: Seq<char>, p: int, f: spec_fn(char) -> bool) -> int
    decreases s.len() - p,
{
    if 0 <= p < s.len() && f(s[p]) {
        scan_while(s, p + 1, f)
    } else {
        p
    }
}

pub proof fn lemma_scan_while_bounds(s: Seq<char>, p: int, f: spec_fn(char) -> bool)
    requires
        0 <= p <= s.len(),
    ensures
        p <= scan_while(s, p, f) <= s.len(),
        forall|j: int| p <= j < scan_while(s, p, f) ==> f(s[j]),
        scan_while(s, p, f) < s.len() ==> !f(s[scan_while(s, p, f)]),
    decreases s.len() - p,
{
    if p < s.len() && f(s[p]) {
        lemma_scan_while_bounds(s, p + 1, f);
    }
}

/// Identifier-continue characters.
pub open spec fn xid_cont_f() -> spec_fn(char) -> bool {
    |c: char| is_xid_continue(c)
}

/// Whitespace characters.
pub open spec fn space_f() -> spec_fn(char) -> bool {
    |c: char| is_space(c)
}

/// Digits of base `radix`, with `_` accepted as a separator.
pub open spec fn dig_us_f(radix: u32) -> spec_fn(char) -> bool {
    |c: char| digit_val(c, radix) is Some || c == '_'
}

/// The number of consecutive hexadecimal digits at `p`, capped at `cap`.
pub open spec fn hex_run_len(s: Seq<char>, p: int, cap: nat) -> nat
    decreases cap,
{
    if cap == 0 {
        0
    } else if 0 <= p < s.len() && digit_val(s[p], 16) is Some {
        1 + hex_run_len(s, p + 1, (cap - 1) as nat)
    } else {
        0
    }
}

/// `t` with every `_` separator removed.
pub open spec fn no_underscore(t: Seq<char>) -> Seq<char> {
    t.filter(|c: char| c != '_')
}

/// The numeric value of the digits of base `radix` in `t`, most
/// significant first; characters that are not digits of that base
/// (separators in particular) are skipped.
pub open spec fn digits_value(t: Seq<char>, radix: u32) -> nat
    decreases t.len(),
{
    if t.len() == 0 {
        0
    } else {
        let prev = digits_value(t.drop_last(), radix);
        match digit_val(t.last(), radix) {
            Some(d) => prev * (radix as nat) + (d as nat),
            None => prev,
        }
    }
}

/// A longer digit text never has a smaller value.
pub proof fn lemma_digits_value_prefix(t: Seq<char>, radix: u32, i: int)
    requires
        1 <= radix,
        0 <= i <= t.len(),
    ensures
        digits_value(t.subrange(0, i), radix) <= digits_value(t, radix),
    decreases t.len() - i,
{
    if i == t.len() {
        assert(t.subrange(0, i) =~= t);
    } else {
        lemma_digits_value_prefix(t, radix, i + 1);
        let a = t.subrange(0, i);
        let b = t.subrange(0, i + 1);
        assert(b.drop_last() =~= a);
        let pv = digits_value(a, radix);
        assert(pv * (radix as nat) >= pv) by (nonlinear_arith)
            requires radix >= 1, pv >= 0,
        ;
    }
}

/// A digit text of bounded length has a bounded value.
pub proof fn lemma_digits_value_bound(t: Seq<char>, radix: u32)
    requires
        2 <= radix <= 36,
    ensures
        (digits_value(t, radix) as int) < vstd::arithmetic::power::pow(radix as int, t.len()),
    decreases t.len(),
{
    reveal(vstd::arithmetic::power::pow);
    let r = radix as int;
    let n = t.len();
    if n == 0 {
        assert(vstd::arithmetic::power::pow(r, 0) == 1);
    } else {
        lemma_digits_value_bound(t.drop_last(), radix);
        let m = (n - 1) as nat;
        let prev = digits_value(t.drop_last(), radix) as int;
        let pw = vstd::arithmetic::power::pow(r, m);
        assert(vstd::arithmetic::power::pow(r, n) == r * pw);
        vstd::arithmetic::power::lemma_pow_positive(r, m);
        match digit_val(t.last(), radix) {
            Some(d) => {
                assert(d < radix);
                assert(prev * r + d < pw * r) by (nonlinear_arith)
                    requires
                        prev < pw,
                        0 <= d < r,
                        r >= 2,
                        prev >= 0,
                        pw >= 1,
                ;
                assert(digits_value(t, radix) as int == prev * r + d);
                assert(pw * r == r * pw) by (nonlinear_arith);
            },
            None => {
                assert(pw <= r * pw) by (nonlinear_arith)
                    requires
                        r >= 2,
                        pw >= 1,
                ;
                assert(digits_value(t, radix) as int == prev);
            },
        }
    }
}

pub proof fn lemma_hex_run_len_bounds(s: Seq<char>, p: int, cap: nat)
    requires
        0 <= p <= s.len(),
    ensures
        ({
            let j = hex_run_len(s, p, cap) as int;
            &&& j <= cap
            &&& p + j <= s.len()
            &&& (forall|k: int| p <= k < p + j ==> digit_val(s[k], 16) is Some)
            &&& (j < cap ==> (p + j == s.len() || digit_val(s[p + j], 16) is None))
        }),
    decreases cap,
{
    if cap > 0 && p < s.len() && digit_val(s[p], 16) is Some {
        lemma_hex_run_len_bounds(s, p + 1, (cap - 1) as nat);
    }
}

/// Underscores in a digit text separate groups without changing its
/// value.
pub proof fn lemma_underscores_immaterial(t: Seq<char>, radix: u32)
    ensures
        digits_value(no_underscore(t), radix) == digits_value(t, radix),
    decreases t.len(),
{
    reveal(Seq::filter);
    if t.len() > 0 {
        lemma_underscores_immaterial(t.drop_last(), radix);
        let pred = |c: char| c != '_';
        assert(no_underscore(t.drop_last()) == t.drop_last().filter(pred));
        if t.last() != '_' {
            assert(no_underscore(t) == t.drop_last().filter(pred).push(t.last()));
            let u = no_underscore(t);
            assert(u.drop_last() =~= t.drop_last().filter(pred));
            assert(u.last() == t.last());
        } else {
            assert(no_underscore(t) == t.drop_last().filter(pred));
            assert(digit_val('_', radix) is None);
        }
    }
}

/// What the grammar produces at a position: the kind of token, the
/// position just past it, and its payload.
///
/// `end` is always the position at which the next token starts.
/// `BrokenStr` and `BrokenCmt` consume the rest of the input.  `Panics`
/// marks the inputs on which scanning has no result (a decimal literal
/// beyond `i64`, a radix literal beyond `u64`, an empty `\u{}` escape);
/// the tokenizer's precondition excludes them.
pub enum Scan {
    Eof,
    Ident { end: int },
    Space { end: int },
    IntLit { end: int, v: nat },
    RadixLit { end: int, v: nat },
    FloatLit { end: int, text: Seq<char> },
    StrLit { end: int, text: Seq<char> },
    BrokenStr { text: Seq<char> },
    ErrTok { end: int, msg: Seq<char> },
    CommentTok { end: int, text: Seq<char> },
    BrokenCmt { text: Seq<char> },
    OpTok { end: int },
    Panics,
}

/// The outcome of scanning a string literal's interior.
pub enum StrScan {
    Done { end: int, text: Seq<char> },
    Broken { text: Seq<char> },
    Fail { end: int, msg: Seq<char> },
    Panic,
}

/// Scan the interior of a string literal from position `q`, with `acc`
/// the text decoded so far.
pub open spec fn scan_string(s: Seq<char>, q: int, acc: Seq<char>) -> StrScan
    decreases s.len() - q, 1int,
{
    let len = s.len() as int;
    if q < 0 || q >= len {
        StrScan::Broken { text: acc }
    } else if s[q] == '\\' {
        if q + 1 >= len {
            StrScan::Broken { text: acc }
        } else {
            let e = s[q + 1];
            if e == 'n' {
                scan_string(s, q + 2, acc.push('\n'))
            } else if e == 't' {
                scan_string(s, q + 2, acc.push('\t'))
            } else if e == '\\' {
                scan_string(s, q + 2, acc.push('\\'))
            } else if e == '"' {
                scan_string(s, q + 2, acc.push('"'))
            } else if e == 'x' {
                let h1 = if q + 2 < len {
                    digit_val(s[q + 2], 16)
                } else {
                    None
                };
                let h2 = if q + 3 < len {
                    digit_val(s[q + 3], 16)
                } else {
                    None
                };
                match (h1, h2) {
                    (Some(d1), Some(d2)) => {
                        let v = d1 * 16 + d2;
                        if v <= 0x7f {
                            scan_string(s, q + 4, acc.push(v as char))
                        } else {
                            StrScan::Fail {
                                end: q + 4,
                                msg: "this form of character escape may only be used with characters in the range [\\x00-\\x7f]"@,
                            }
                        }
                    },
                    _ => StrScan::Fail {
                        end: if q + 4 <= len { q + 4 } else { len },
                        msg: "numeric character escape is too short"@,
                    },
                }
            } else if e == 'u' {
                if q + 2 >= len || s[q + 2] != '{' {
                    StrScan::Fail {
                        end: if q + 3 <= len { q + 3 } else { len },
                        msg: "incorrect unicode escape sequence"@,
                    }
                } else {
                    match scan_unicode_escape(s, q) {
                        UniScan::Next { at, c } => scan_string(s, at, acc.push(c)),
                        UniScan::Fail { end, msg } => StrScan::Fail { end, msg },
                        UniScan::Panic => StrScan::Panic,
                    }
                }
            } else {
                scan_string(s, q + 2, acc)
            }
        }
    } else if s[q] == '"' {
        StrScan::Done { end: q + 1, text: acc }
    } else {
        scan_string(s, q + 1, acc.push(s[q]))
    }
}

/// The outcome of scanning a `\u{...}` escape.
pub enum UniScan {
    Next { at: int, c: char },
    Fail { end: int, msg: Seq<char> },
    Panic,
}

/// Scan a `\u{...}` escape; `q` is the position of the backslash, so
/// the hexadecimal digits start at `q + 3`.  On success, `at` is the
/// position just after the closing brace and `c` the decoded character.
pub open spec fn scan_unicode_escape(s: Seq<char>, q: int) -> UniScan {
    let len = s.len() as int;
    let j = hex_run_len(s, q + 3, 7) as int;
    let b = q + 3 + j;
    if j >= 7 {
        // a seventh hexadecimal digit is one too many
        UniScan::Fail {
            end: if q + 10 <= len {
                q + 10
            } else {
                len
            },
            msg: "overlong unicode escape (can have at most 6 hex digits)"@,
        }
    } else if b >= len {
        // the input ends among the digits; the synthetic end-of-input
        // marker is not a closing brace
        if j == 6 {
            UniScan::Fail {
                end: len,
                msg: "overlong unicode escape (can have at most 6 hex digits)"@,
            }
        } else {
            UniScan::Fail { end: len, msg: "invalid character in unicode escape: "@.push('\0') }
        }
    } else if s[b] == '}' {
        if j == 0 {
            // an empty escape reaches a numeric parse of an empty text
            UniScan::Panic
        } else {
            let v = digits_value(s.subrange(q + 3, b), 16);
            if is_unicode_scalar(v as int) {
                UniScan::Next { at: b + 1, c: (v as int) as char }
            } else {
                UniScan::Fail { end: b + 1, msg: "invalid unicode character escape"@ }
            }
        }
    } else if j == 6 {
        UniScan::Fail {
            end: if q + 10 <= len {
                q + 10
            } else {
                len
            },
            msg: "overlong unicode escape (can have at most 6 hex digits)"@,
        }
    } else {
        UniScan::Fail { end: b + 1, msg: "invalid character in unicode escape: "@.push(s[b]) }
    }
}

/// The outcome of scanning a block comment's interior.
pub enum CmtScan {
    Done { end: int, last: int },
    Broken,
}

/// Scan a block comment from position `q` (just after the opening
/// delimiter), with `depth` open delimiters and `last` the position that
/// the most recent closing delimiter ended the text at.
pub open spec fn scan_comment(s: Seq<char>, q: int, depth: int, last: int) -> CmtScan
    decreases s.len() - q,
{
    let len = s.len() as int;
    if q < 0 || q >= len {
        CmtScan::Broken
    } else if s[q] == '/' {
        if q + 1 < len && s[q + 1] == '*' {
            scan_comment(s, q + 2, depth + 1, last)
        } else {
            scan_comment(s, if q + 2 <= len { q + 2 } else { len }, depth, last)
        }
    } else if s[q] == '*' {
        if q + 1 < len && s[q + 1] == '/' {
            if depth == 1 {
                CmtScan::Done { end: q + 2, last: q }
            } else {
                scan_comment(s, q + 2, depth - 1, q)
            }
        } else {
            scan_comment(s, if q + 2 <= len { q + 2 } else { len }, depth, last)
        }
    } else {
        scan_comment(s, q + 1, depth, last)
    }
}

/// Whether the character after a leading digit commits the scanner to a
/// decimal literal.
pub open spec fn dec_second_cond(s: Seq<char>, p: int) -> bool {
    p + 1 < s.len() && (digit_val(s[p + 1], 10) is Some || s[p + 1] == '_' || s[p + 1] == '.'
        || s[p + 1] == 'e' || s[p + 1] == 'E')
}

/// The end of a decimal literal's integer part (digits and separators
/// after the leading digit at `p`).
pub open spec fn dec_int_end(s: Seq<char>, p: int) -> int {
    scan_while(s, p + 1, dig_us_f(10))
}

/// Whether a decimal point follows the integer part.
pub open spec fn dec_has_frac(s: Seq<char>, p: int) -> bool {
    let e1 = dec_int_end(s, p);
    e1 < s.len() && s[e1] == '.'
}

/// The end of the fractional part (which may be empty).
pub open spec fn dec_frac_end(s: Seq<char>, p: int) -> int {
    if dec_has_frac(s, p) {
        scan_while(s, dec_int_end(s, p) + 1, dig_us_f(10))
    } else {
        dec_int_end(s, p)
    }
}

/// Whether an exponent marker immediately followed by a digit comes
/// next; a marker without a digit is left unconsumed.
pub open spec fn dec_has_exp(s: Seq<char>, p: int) -> bool {
    let e2 = dec_frac_end(s, p);
    e2 + 1 < s.len() && (s[e2] == 'e' || s[e2] == 'E') && digit_val(s[e2 + 1], 10) is Some
}

/// The end of the whole decimal literal.
pub open spec fn dec_end(s: Seq<char>, p: int) -> int {
    if dec_has_exp(s, p) {
        scan_while(s, dec_frac_end(s, p) + 2, dig_us_f(10))
    } else {
        dec_frac_end(s, p)
    }
}

/// Scan a numeric literal whose leading digit stands at `p`.
pub open spec fn scan_number(s: Seq<char>, p: int) -> Scan {
    if dec_second_cond(s, p) {
        let end = dec_end(s, p);
        if dec_has_frac(s, p) || dec_has_exp(s, p) {
            Scan::FloatLit { end, text: no_underscore(s.subrange(p, end)) }
        } else {
            let v = digits_value(s.subrange(p, end), 10);
            if v > 0x7fff_ffff_ffff_ffff {
                Scan::Panics
            } else {
                Scan::IntLit { end, v }
            }
        }
    } else if s[p] == '0' && p + 1 < s.len() && spec_radix_of(s[p + 1]) is Some {
        match spec_radix_of(s[p + 1]) {
            Some(radix) => {
                if p + 2 < s.len() && digit_val(s[p + 2], radix) is Some {
                    let end = scan_while(s, p + 2, dig_us_f(radix));
                    let v = digits_value(s.subrange(p + 2, end), radix);
                    if v > 0xffff_ffff_ffff_ffff {
                        Scan::Panics
                    } else {
                        Scan::RadixLit { end, v }
                    }
                } else {
                    // no valid digit follows the prefix letter: the
                    // token is the single zero, and the letter is left
                    // for the next token
                    Scan::IntLit { end: p + 1, v: 0 }
                }
            },
            None => Scan::Panics,
        }
    } else {
        match digit_val(s[p], 10) {
            Some(d) => Scan::IntLit { end: p + 1, v: d as nat },
            None => Scan::Panics,
        }
    }
}

/// Which token the grammar produces at position `p` of source `s`, with
/// `ops` the registered operator spellings.
pub open spec fn scan_at(s: Seq<char>, p: int, ops: Seq<Seq<char>>) -> Scan {
    let len = s.len() as int;
    if p >= len {
        Scan::Eof
    } else {
        let c = s[p];
        if is_xid_start(c) {
            Scan::Ident { end: scan_while(s, p + 1, xid_cont_f()) }
        } else if is_space(c) {
            Scan::Space { end: scan_while(s, p + 1, space_f()) }
        } else if digit_val(c, 10) is Some {
            scan_number(s, p)
        } else if c == '"' {
            match scan_string(s, p + 1, Seq::<char>::empty()) {
                StrScan::Done { end, text } => Scan::StrLit { end, text },
                StrScan::Broken { text } => Scan::BrokenStr { text },
                StrScan::Fail { end, msg } => Scan::ErrTok { end, msg },
                StrScan::Panic => Scan::Panics,
            }
        } else if c == '/' && p + 1 < len && s[p + 1] == '*' {
            match scan_comment(s, p + 2, 1, p + 1) {
                CmtScan::Done { end, last } => Scan::CommentTok {
                    end,
                    text: s.subrange(p + 2, last),
                },
                CmtScan::Broken => Scan::BrokenCmt { text: s.subrange(p + 2, len) },
            }
        } else {
            match best_upto(ops, s.skip(p), ops.len() as int) {
                Some(m) => Scan::OpTok { end: p + m.len() },
                None => Scan::ErrTok { end: p + 1, msg: "unrecognized character: "@.push(c) },
            }
        }
    }
}

pub proof fn lemma_scan_string_bounds(s: Seq<char>, q: int, acc: Seq<char>)
    requires
        0 <= q <= s.len(),
    ensures
        match scan_string(s, q, acc) {
            StrScan::Done { end, .. } => q < end <= s.len(),
            StrScan::Fail { end, .. } => q < end <= s.len(),
            _ => true,
        },
    decreases s.len() - q,
{
    let len = s.len() as int;
    if q < len && s[q] == '\\' && q + 1 < len {
        let e = s[q + 1];
        if e == 'n' || e == 't' || e == '\\' || e == '"' {
            lemma_scan_string_bounds(s, q + 2, acc.push(if e == 'n' {
                '\n'
            } else if e == 't' {
                '\t'
            } else if e == '\\' {
                '\\'
            } else {
                '"'
            }));
        } else if e == 'x' {
            if q + 2 < len && digit_val(s[q + 2], 16) is Some && q + 3 < len && digit_val(
                s[q + 3],
                16,
            ) is Some {
                match (digit_val(s[q + 2], 16), digit_val(s[q + 3], 16)) {
                    (Some(d1), Some(d2)) => {
                        if d1 * 16 + d2 <= 0x7f {
                            lemma_scan_string_bounds(
                                s,
                                q + 4,
                                acc.push(((d1 * 16 + d2) as int) as char),
                            );
                        }
                    },
                    _ => {},
                }
            }
        } else if e == 'u' {
            if q + 2 < len && s[q + 2] == '{' {
                match scan_unicode_escape(s, q) {
                    UniScan::Next { at, c } => {
                        lemma_scan_string_bounds(s, at, acc.push(c));
                    },
                    _ => {},
                }
            }
        } else {
            lemma_scan_string_bounds(s, q + 2, acc);
        }
    } else if q < len && s[q] != '\\' && s[q] != '"' {
        lemma_scan_string_bounds(s, q + 1, acc.push(s[q]));
    }
}

pub proof fn lemma_scan_comment_bounds(s: Seq<char>, q: int, depth: int, last: int)
    requires
        0 <= q <= s.len(),
    ensures
        match scan_comment(s, q, depth, last) {
            CmtScan::Done { end, last: l } => q <= l && end == l + 2 && end <= s.len(),
            CmtScan::Broken => true,
        },
    decreases s.len() - q,
{
    let len = s.len() as int;
    if 0 <= q < len {
        if s[q] == '/' {
            if q + 1 < len && s[q + 1] == '*' {
                lemma_scan_comment_bounds(s, q + 2, depth + 1, last);
            } else {
                lemma_scan_comment_bounds(s, if q + 2 <= len { q + 2 } else { len }, depth, last);
            }
        } else if s[q] == '*' {
            if q + 1 < len && s[q + 1] == '/' {
                if depth != 1 {
                    lemma_scan_comment_bounds(s, q + 2, depth - 1, q);
                }
            } else {
                lemma_scan_comment_bounds(s, if q + 2 <= len { q + 2 } else { len }, depth, last);
            }
        } else {
            lemma_scan_comment_bounds(s, q + 1, depth, last);
        }
    }
}

/// Every token covers a non-empty span that stays within the source:
/// scanning advances from `p` to `end` with `p < end <= s.len()`, and
/// the broken variants consume exactly the rest of the input.  Spans of
/// successive tokens therefore tile the source with no gap or overlap.
pub proof fn lemma_scan_progress(s: Seq<char>, p: int, ops: Seq<Seq<char>>)
    requires
        0 <= p,
    ensures
        match scan_at(s, p, ops) {
            Scan::Eof => p >= s.len(),
            Scan::Ident { end } => p < end <= s.len(),
            Scan::Space { end } => p < end <= s.len(),
            Scan::IntLit { end, .. } => p < end <= s.len(),
            Scan::RadixLit { end, .. } => p < end <= s.len(),
            Scan::FloatLit { end, .. } => p < end <= s.len(),
            Scan::StrLit { end, .. } => p < end <= s.len(),
            Scan::ErrTok { end, .. } => p < end <= s.len(),
            Scan::CommentTok { end, .. } => p < end <= s.len(),
            Scan::OpTok { end } => p < end <= s.len(),
            Scan::BrokenStr { .. } => true,
            Scan::BrokenCmt { .. } => true,
            Scan::Panics => true,
        },
{
    let len = s.len() as int;
    if p < len {
        let c = s[p];
        if is_xid_start(c) {
            lemma_scan_while_bounds(s, p + 1, xid_cont_f());
        } else if is_space(c) {
            lemma_scan_while_bounds(s, p + 1, space_f());
        } else if digit_val(c, 10) is Some {
            lemma_scan_number_bounds(s, p);
        } else if c == '"' {
            lemma_scan_string_bounds(s, p + 1, Seq::<char>::empty());
        } else if c == '/' && p + 1 < len && s[p + 1] == '*' {
            lemma_scan_comment_bounds(s, p + 2, 1, p + 1);
        } else {
            crate::registry::lemma_best_upto_maximal(ops, s.skip(p), ops.len() as int);
            match best_upto(ops, s.skip(p), ops.len() as int) {
                Some(m) => {
                    assert(is_prefix_of(m, s.skip(p)));
                    assert(m.len() <= s.skip(p).len());
                },
                None => {},
            }
        }
    }
}

/// A decimal point or exponent marker that is not validly followed per
/// the grammar is never consumed: the literal ends exactly at it, so the
/// next token starts at that marker.
pub proof fn lemma_marker_not_consumed(s: Seq<char>, p: int)
    requires
        0 <= p < s.len(),
        digit_val(s[p], 10) is Some,
        dec_second_cond(s, p),
        ({
            let e2 = dec_frac_end(s, p);
            &&& e2 < s.len()
            &&& (s[e2] == '.' || s[e2] == 'e' || s[e2] == 'E')
            &&& (s[e2] == '.' || e2 + 1 >= s.len() || digit_val(s[e2 + 1], 10) is None)
        }),
    ensures
        ({
            let e2 = dec_frac_end(s, p);
            match scan_number(s, p) {
                Scan::IntLit { end, .. } => end == e2,
                Scan::FloatLit { end, .. } => end == e2,
                Scan::Panics => true,
                _ => false,
            }
        }),
{
    assert(!dec_has_exp(s, p));
}

/// A radix prefix (`0x`, `0o`, `0b`) with no valid digit after it is
/// never consumed: the token is the single `0`, and the next token
/// starts at the prefix letter.
pub proof fn lemma_radix_prefix_not_consumed(s: Seq<char>, p: int)
    requires
        0 <= p < s.len(),
        s[p] == '0',
        p + 1 < s.len(),
        spec_radix_of(s[p + 1]) is Some,
        match spec_radix_of(s[p + 1]) {
            Some(radix) => p + 2 >= s.len() || digit_val(s[p + 2], radix) is None,
            None => false,
        },
    ensures
        scan_number(s, p) == (Scan::IntLit { end: p + 1, v: 0nat }),
{
    assert(!dec_second_cond(s, p));
}

/// Positions shift uniformly when two sources agree from two starting
/// points on.
proof fn lemma_scan_while_shift(
    s1: Seq<char>,
    p1: int,
    s2: Seq<char>,
    p2: int,
    q1: int,
    q2: int,
    f: spec_fn(char) -> bool,
)
    requires
        0 <= p1 <= s1.len(),
        0 <= p2 <= s2.len(),
        s1.skip(p1) == s2.skip(p2),
        q1 >= p1,
        q2 - p2 == q1 - p1,
    ensures
        scan_while(s1, q1, f) - p1 == scan_while(s2, q2, f) - p2,
    decreases s1.len() - q1,
{
    assert(s1.skip(p1).len() == s1.len() - p1);
    assert(s2.skip(p2).len() == s2.len() - p2);
    assert(s1.len() - p1 == s2.len() - p2);
    if q1 < s1.len() {
        assert(q2 < s2.len());
        assert(s1[q1] == s1.skip(p1)[q1 - p1]);
        assert(s2[q2] == s2.skip(p2)[q2 - p2]);
        if f(s1[q1]) {
            lemma_scan_while_shift(s1, p1, s2, p2, q1 + 1, q2 + 1, f);
        }
    } else {
        assert(q2 >= s2.len());
    }
}

/// The text-to-number mapping is a pure function of the literal's
/// character sequence: two sources that agree from the literal's
/// leading digit on yield the same number, over spans of the same
/// length.
pub proof fn lemma_number_purity(s1: Seq<char>, p1: int, s2: Seq<char>, p2: int)
    requires
        0 <= p1 < s1.len(),
        0 <= p2 < s2.len(),
        s1.skip(p1) == s2.skip(p2),
        digit_val(s1[p1], 10) is Some,
    ensures
        match (scan_number(s1, p1), scan_number(s2, p2)) {
            (Scan::IntLit { end: e1, v: v1 }, Scan::IntLit { end: e2, v: v2 }) => e1 - p1 == e2
                - p2 && v1 == v2,
            (Scan::RadixLit { end: e1, v: v1 }, Scan::RadixLit { end: e2, v: v2 }) => e1 - p1 == e2
                - p2 && v1 == v2,
            (Scan::FloatLit { end: e1, text: t1 }, Scan::FloatLit { end: e2, text: t2 }) => e1 - p1
                == e2 - p2 && t1 == t2,
            (Scan::Panics, Scan::Panics) => true,
            _ => false,
        },
{
    let d = p2 - p1;
    assert(s1.skip(p1).len() == s1.len() - p1);
    assert(s2.skip(p2).len() == s2.len() - p2);
    assert(s1.len() - p1 == s2.len() - p2);
    assert forall|j: int| p1 <= j < s1.len() implies s1[j] == s2[j + d] by {
        assert(s1[j] == s1.skip(p1)[j - p1]);
        assert(s2[j + d] == s2.skip(p2)[j + d - p2]);
        assert(j + d - p2 == j - p1);
    }
    assert(dec_second_cond(s1, p1) == dec_second_cond(s2, p2));
    if dec_second_cond(s1, p1) {
        lemma_scan_while_shift(s1, p1, s2, p2, p1 + 1, p2 + 1, dig_us_f(10));
        lemma_scan_while_bounds(s1, p1 + 1, dig_us_f(10));
        let e1 = dec_int_end(s1, p1);
        assert(dec_int_end(s2, p2) == e1 + d);
        if e1 < s1.len() {
            assert(s1[e1] == s2[e1 + d]);
        }
        assert(dec_has_frac(s1, p1) == dec_has_frac(s2, p2));
        if dec_has_frac(s1, p1) {
            lemma_scan_while_shift(s1, p1, s2, p2, e1 + 1, e1 + d + 1, dig_us_f(10));
            lemma_scan_while_bounds(s1, e1 + 1, dig_us_f(10));
        }
        let e2 = dec_frac_end(s1, p1);
        assert(dec_frac_end(s2, p2) == e2 + d);
        if e2 < s1.len() {
            assert(s1[e2] == s2[e2 + d]);
        }
        if e2 + 1 < s1.len() {
            assert(s1[e2 + 1] == s2[e2 + d + 1]);
        }
        assert(dec_has_exp(s1, p1) == dec_has_exp(s2, p2));
        if dec_has_exp(s1, p1) {
            lemma_scan_while_shift(s1, p1, s2, p2, e2 + 2, e2 + d + 2, dig_us_f(10));
        }
        let e3 = dec_end(s1, p1);
        assert(dec_end(s2, p2) == e3 + d);
        assert(s1.subrange(p1, e3) =~= s2.subrange(p2, e3 + d)) by {
            lemma_scan_while_bounds(s1, p1 + 1, dig_us_f(10));
            if dec_has_frac(s1, p1) {
                lemma_scan_while_bounds(s1, e1 + 1, dig_us_f(10));
            }
            if dec_has_exp(s1, p1) {
                lemma_scan_while_bounds(s1, e2 + 2, dig_us_f(10));
            }
        }
    } else if s1[p1] == '0' && p1 + 1 < s1.len() && spec_radix_of(s1[p1 + 1]) is Some {
        match spec_radix_of(s1[p1 + 1]) {
            Some(radix) => {
                if p1 + 2 < s1.len() && digit_val(s1[p1 + 2], radix) is Some {
                    lemma_scan_while_shift(s1, p1, s2, p2, p1 + 2, p2 + 2, dig_us_f(radix));
                    let e = scan_while(s1, p1 + 2, dig_us_f(radix));
                    assert(s1.subrange(p1 + 2, e) =~= s2.subrange(p2 + 2, e + d)) by {
                        lemma_scan_while_bounds(s1, p1 + 2, dig_us_f(radix));
                    }
                }
            },
            None => {},
        }
    }
}

pub proof fn lemma_scan_number_bounds(s: Seq<char>, p: int)
    requires
        0 <= p < s.len(),
        digit_val(s[p], 10) is Some,
    ensures
        match scan_number(s, p) {
            Scan::IntLit { end, .. } => p < end <= s.len(),
            Scan::RadixLit { end, .. } => p < end <= s.len(),
            Scan::FloatLit { end, .. } => p < end <= s.len(),
            Scan::Panics => true,
            _ => false,
        },
{
    if dec_second_cond(s, p) {
        lemma_scan_while_bounds(s, p + 1, dig_us_f(10));
        if dec_has_frac(s, p) {
            lemma_scan_while_bounds(s, dec_int_end(s, p) + 1, dig_us_f(10));
        }
        if dec_has_exp(s, p) {
            lemma_scan_while_bounds(s, dec_frac_end(s, p) + 2, dig_us_f(10));
        }
    } else if s[p] == '0' && p + 1 < s.len() && spec_radix_of(s[p + 1]) is Some {
        match spec_radix_of(s[p + 1]) {
            Some(radix) => {
                if p + 2 < s.len() && digit_val(s[p + 2], radix) is Some {
                    lemma_scan_while_bounds(s, p + 2, dig_us_f(radix));
                }
            },
            None => {},
        }
    }
}

} // verus!
