//! The tokenizer: a backtracking cursor over the source characters and
//! the sub-scanners for identifiers, whitespace, numbers, strings, block
//! comments and operators.  `Lexer::next` is proved to return exactly
//! the token that the grammar in `scan` assigns to the current position.

use vstd::prelude::*;

use vstd::string::StrSliceExecFns;
use vstd::string::StringExecFns;
use crate::chars::{digit_of, digit_val, char_from_u32, radix_of, spec_radix_of, space_char,
    xid_continue_char, xid_start_char};
use crate::registry::{best_upto, is_prefix_of, OperatorRegistry};
use crate::scan::{dec_end, dec_frac_end, dec_has_exp, dec_has_frac, dec_int_end, dec_second_cond,
    dig_us_f, digits_value, hex_run_len, lemma_digits_value_bound, lemma_digits_value_prefix,
    lemma_hex_run_len_bounds, lemma_scan_while_bounds, no_underscore, scan_at, scan_comment,
    scan_number, scan_string, scan_unicode_escape, scan_while, space_f, xid_cont_f, CmtScan, Scan,
    StrScan, UniScan};
use crate::strutil::push_char;
use crate::symbol::{intern_rel, Symbol, Table};
use crate::val::Number;

verus! {

/// A classified run of source text.
#[derive(Clone, Debug, PartialEq)]
pub enum Token {
    Identifier(Symbol),
    Number(Number),
    String(String),
    BrokenString(String),
    Error(String),
    Comment(String),
    BrokenComment(String),
    Whitespace(Symbol),
    Operator(Symbol),
}

/// The outcome of decoding one `\u{...}` escape.
enum EscapeStep {
    Decoded(char),
    Failed(String),
}

/// The character at `i`, with a NUL standing in past the end of input.
pub open spec fn ext_char(s: Seq<char>, i: int) -> char {
    if 0 <= i < s.len() {
        s[i]
    } else {
        '\0'
    }
}

pub open spec fn imin(a: int, b: int) -> int {
    if a < b {
        a
    } else {
        b
    }
}

/// A single-pass reader over a borrowed source string, with a pushback
/// stack that lets the sub-scanners look ahead and return characters.
pub struct Lexer<'a> {
    pub source: &'a str,
    pub len: usize,
    pub pos: usize,
    pub reversed: Vec<(usize, char)>,
}

impl<'a> Lexer<'a> {
    /// The pushback stack holds previously read `(position, character)`
    /// pairs, consecutive and ending just before `pos`, clamped to the
    /// end of input.
    pub open spec fn wf(self) -> bool {
        let s = self.source@;
        let n = self.reversed@.len() as int;
        &&& self.len == s.len()
        &&& self.pos <= self.len
        &&& (forall|k: int|
            0 <= k < n ==> (#[trigger] self.reversed@[k]).0 <= self.len && self.reversed@[k].1
                == ext_char(s, self.reversed@[k].0 as int))
        &&& (forall|k: int|
            0 <= k < n - 1 ==> (#[trigger] self.reversed@[k]).0 as int == imin(
                self.reversed@[k + 1].0 as int + 1,
                self.len as int,
            ))
        &&& (n > 0 ==> imin(self.reversed@[0].0 as int + 1, self.len as int) == self.pos as int)
    }

    /// The position of the next character the cursor will deliver.
    pub open spec fn cur(self) -> int {
        if self.reversed@.len() > 0 {
            self.reversed@.last().0 as int
        } else {
            self.pos as int
        }
    }

    pub fn new(source: &'a str) -> (r: Lexer<'a>)
        ensures
            r.wf(),
            r.source == source,
            r.cur() == 0,
    {
        let len = source.unicode_len();
        Lexer { source, len, pos: 0, reversed: Vec::new() }
    }

    /// Deliver the next character and its position; at the end of input
    /// the position is the source length and the character a NUL, and
    /// the cursor stays put.
    fn tick(&mut self) -> (r: (usize, char))
        requires
            old(self).wf(),
        ensures
            final(self).wf(),
            final(self).source == old(self).source,
            r.0 as int == old(self).cur(),
            r.1 == ext_char(old(self).source@, old(self).cur()),
            final(self).cur() == imin(old(self).cur() + 1, old(self).source@.len() as int),
    {
        let n = self.reversed.len();
        if n > 0 {
            proof {
                if n > 1 {
                    assert(self.reversed@[n - 2].0 as int == imin(
                        self.reversed@[n - 1].0 as int + 1,
                        self.len as int,
                    ));
                }
            }
            let res = self.reversed.pop().unwrap();
            res
        } else {
            if self.pos < self.len {
                let c = self.source.get_char(self.pos);
                self.pos = self.pos + 1;
                (self.pos - 1, c)
            } else {
                (self.len, '\0')
            }
        }
    }

    /// Return a previously delivered character to the front of the
    /// stream; only the character just before the cursor can go back.
    fn untick(&mut self, index: usize, c: char)
        requires
            old(self).wf(),
            index <= old(self).len,
            c == ext_char(old(self).source@, index as int),
            old(self).cur() == imin(index as int + 1, old(self).source@.len() as int),
        ensures
            final(self).wf(),
            final(self).source == old(self).source,
            final(self).cur() == index as int,
    {
        self.reversed.push((index, c));
    }

    /// The source text between two character positions.
    fn slice(&self, start: usize, end: usize) -> (r: &'a str)
        requires
            self.wf(),
            start <= end <= self.len,
        ensures
            r@ == self.source@.subrange(start as int, end as int),
    {
        self.source.substring_char(start, end)
    }

    /// Intern `text` in `table`.
    fn intern(&self, table: &mut Table, text: &str) -> (r: Symbol)
        requires
            old(table).wf(),
        ensures
            intern_rel(*old(table), *final(table), text@, r),
    {
        table.intern(text)
    }

    /// Consume the maximal run of identifier-continue characters
    /// starting at `from` and return the position just past it.
    fn run_ident(&mut self, from: usize) -> (r: usize)
        requires
            old(self).wf(),
            old(self).cur() == from as int,
        ensures
            final(self).wf(),
            final(self).source == old(self).source,
            r as int == scan_while(old(self).source@, from as int, xid_cont_f()),
            final(self).cur() == r as int,
    {
        let end = find_ident_end(self.source, from);
        proof {
            lemma_scan_while_bounds(self.source@, from as int, xid_cont_f());
        }
        self.advance_to(end);
        end
    }

    /// Consume the maximal run of whitespace characters starting at
    /// `from` and return the position just past it.
    fn run_space(&mut self, from: usize) -> (r: usize)
        requires
            old(self).wf(),
            old(self).cur() == from as int,
        ensures
            final(self).wf(),
            final(self).source == old(self).source,
            r as int == scan_while(old(self).source@, from as int, space_f()),
            final(self).cur() == r as int,
    {
        let end = find_space_end(self.source, from);
        proof {
            lemma_scan_while_bounds(self.source@, from as int, space_f());
        }
        self.advance_to(end);
        end
    }

    /// Consume the maximal run of base-`radix` digits and separators
    /// starting at `from` and return the position just past it.
    fn run_digits(&mut self, from: usize, radix: u32) -> (r: usize)
        requires
            old(self).wf(),
            old(self).cur() == from as int,
            2 <= radix <= 36,
        ensures
            final(self).wf(),
            final(self).source == old(self).source,
            r as int == scan_while(old(self).source@, from as int, dig_us_f(radix)),
            final(self).cur() == r as int,
    {
        let end = find_digits_end(self.source, from, radix);
        proof {
            lemma_scan_while_bounds(self.source@, from as int, dig_us_f(radix));
        }
        self.advance_to(end);
        end
    }

    /// Advance the cursor to `target` by consuming characters.
    fn advance_to(&mut self, target: usize)
        requires
            old(self).wf(),
            old(self).cur() <= target as int <= old(self).source@.len(),
        ensures
            final(self).wf(),
            final(self).source == old(self).source,
            final(self).cur() == target as int,
        decreases target as int - old(self).cur(),
    {
        let ghost src0 = self.source;
        if self.reversed.len() > 0 {
            let last = self.reversed.len() - 1;
            if self.reversed[last].0 < target {
                let _ = self.tick();
                self.advance_to(target);
            }
        } else if self.pos < target {
            let _ = self.tick();
            self.advance_to(target);
        }
    }

    /// Scan a numeric literal whose leading digit, already consumed,
    /// stands at `first_index`.
    fn lex_number(&mut self, first_index: usize, first_digit: u32) -> (t: Token)
        requires
            old(self).wf(),
            (first_index as int) < old(self).source@.len(),
            digit_val(old(self).source@[first_index as int], 10) == Some(first_digit),
            old(self).cur() == first_index as int + 1,
            !(scan_number(old(self).source@, first_index as int) is Panics),
        ensures
            final(self).wf(),
            final(self).source == old(self).source,
            ({
                let s = old(self).source@;
                let p = first_index as int;
                match scan_number(s, p) {
                    Scan::IntLit { end, v } => t == Token::Number(Number::I64(v as i64))
                        && final(self).cur() == end,
                    Scan::RadixLit { end, v } => t == Token::Number(Number::U64(v as u64))
                        && final(self).cur() == end,
                    Scan::FloatLit { end, text } => (t matches Token::Number(Number::F64(f))
                        && f@ == text) && final(self).cur() == end,
                    _ => false,
                }
            }),
    {
        let ghost s = self.source@;
        let ghost p = first_index as int;
        let (second_index, second_char) = self.tick();
        let is_dec = digit_of(second_char, 10).is_some() || second_char == '_' || second_char
            == '.' || second_char == 'e' || second_char == 'E';
        proof {
            assert(second_char == ext_char(s, p + 1));
            assert(is_dec == dec_second_cond(s, p));
        }
        if is_dec {
            self.untick(second_index, second_char);
            self.lex_decimal(first_index)
        } else {
            if first_digit == 0 {
                if let Some(radix) = radix_of(second_char) {
                    proof {
                        assert(p + 1 < s.len() && spec_radix_of(s[p + 1]) == Some(radix));
                        assert(radix == 16 || radix == 8 || radix == 2);
                        // the leading digit with value zero is the digit zero
                        assert(s[p] as u32 == 0x30);
                        vstd::utf8::char_u32_cast(s[p], 0x30);
                        vstd::utf8::char_u32_cast('0', 0x30);
                        assert(s[p] == '0');
                    }
                    return self.lex_radix(first_index, second_index, second_char, radix);
                }
            }
            self.untick(second_index, second_char);
            proof {
                assert(scan_number(s, p) == (Scan::IntLit { end: p + 1, v: first_digit as nat }));
            }
            Token::Number(Number::I64(first_digit as i64))
        }
    }

    /// Scan the rest of a decimal literal: the integer part after the
    /// leading digit, an optional fraction, an optional exponent.
    fn lex_decimal(&mut self, first_index: usize) -> (t: Token)
        requires
            old(self).wf(),
            (first_index as int) < old(self).source@.len(),
            digit_val(old(self).source@[first_index as int], 10) is Some,
            dec_second_cond(old(self).source@, first_index as int),
            old(self).cur() == first_index as int + 1,
            !(scan_number(old(self).source@, first_index as int) is Panics),
        ensures
            final(self).wf(),
            final(self).source == old(self).source,
            ({
                let s = old(self).source@;
                let p = first_index as int;
                match scan_number(s, p) {
                    Scan::IntLit { end, v } => t == Token::Number(Number::I64(v as i64))
                        && final(self).cur() == end,
                    Scan::FloatLit { end, text } => (t matches Token::Number(Number::F64(f))
                        && f@ == text) && final(self).cur() == end,
                    _ => false,
                }
            }),
    {
        let ghost s = self.source@;
        let ghost p = first_index as int;
        let e1 = self.run_digits(first_index + 1, 10);
        proof {
            assert(e1 as int == dec_int_end(s, p));
            lemma_scan_while_bounds(s, p + 1, dig_us_f(10));
        }
        let mut last_index = e1;
        let mut saw_decimal = false;
        let (i, c) = self.tick();
        if c == '.' {
            proof {
                assert(c == ext_char(s, e1 as int));
                assert(dec_has_frac(s, p));
            }
            saw_decimal = true;
            last_index = self.run_digits(i + 1, 10);
            proof {
                assert(last_index as int == dec_frac_end(s, p));
                lemma_scan_while_bounds(s, e1 as int + 1, dig_us_f(10));
            }
        } else {
            self.untick(i, c);
            proof {
                assert(!dec_has_frac(s, p));
                assert(last_index as int == dec_frac_end(s, p));
            }
        }
        let ghost e2 = dec_frac_end(s, p);
        let mut saw_exponent = false;
        let (i2, c2) = self.tick();
        if c2 == 'e' || c2 == 'E' {
            let (i3, c3) = self.tick();
            if digit_of(c3, 10).is_some() {
                proof {
                    assert(c3 == ext_char(s, e2 + 1));
                    assert(dec_has_exp(s, p));
                }
                saw_exponent = true;
                last_index = self.run_digits(i3 + 1, 10);
                proof {
                    assert(last_index as int == dec_end(s, p));
                    lemma_scan_while_bounds(s, e2 + 2, dig_us_f(10));
                }
            } else {
                self.untick(i3, c3);
            }
        }
        if !saw_exponent {
            proof {
                assert(!dec_has_exp(s, p));
            }
            self.untick(i2, c2);
            proof {
                assert(last_index as int == dec_end(s, p));
            }
        }
        proof {
            assert(first_index <= last_index);
            assert(last_index <= self.len);
        }
        let span = self.slice(first_index, last_index);
        if saw_exponent || saw_decimal {
            let stripped = strip_underscores(span);
            Token::Number(Number::F64(stripped))
        } else {
            let v = parse_digits(span, 10);
            Token::Number(Number::I64(v as i64))
        }
    }

    /// Scan a radix-prefixed literal: `first_index` holds the zero and
    /// the prefix letter (already consumed) follows it.  When no valid
    /// digit follows the letter, both are handed back and the token is
    /// the zero alone.
    fn lex_radix(&mut self, first_index: usize, second_index: usize, second_char: char, radix: u32) -> (t: Token)
        requires
            old(self).wf(),
            ({
                let s = old(self).source@;
                let p = first_index as int;
                &&& p < s.len()
                &&& s[p] == '0'
                &&& p + 1 < s.len()
                &&& spec_radix_of(s[p + 1]) == Some(radix)
                &&& !dec_second_cond(s, p)
                &&& second_index as int == p + 1
                &&& second_char == s[p + 1]
                &&& old(self).cur() == p + 2
                &&& !(scan_number(s, p) is Panics)
            }),
        ensures
            final(self).wf(),
            final(self).source == old(self).source,
            ({
                let s = old(self).source@;
                let p = first_index as int;
                match scan_number(s, p) {
                    Scan::IntLit { end, v } => t == Token::Number(Number::I64(v as i64))
                        && final(self).cur() == end,
                    Scan::RadixLit { end, v } => t == Token::Number(Number::U64(v as u64))
                        && final(self).cur() == end,
                    _ => false,
                }
            }),
    {
        let ghost s = self.source@;
        let ghost p = first_index as int;
        proof {
            assert(radix == 16 || radix == 8 || radix == 2);
        }
        let (third_index, third_char) = self.tick();
        if digit_of(third_char, radix).is_some() {
            proof {
                assert(third_char == ext_char(s, p + 2));
                assert(p + 2 < s.len() && digit_val(s[p + 2], radix) is Some);
            }
            let end = self.run_digits(third_index + 1, radix);
            proof {
                assert(end as int == scan_while(s, p + 2, dig_us_f(radix)));
                lemma_scan_while_bounds(s, p + 2, dig_us_f(radix));
            }
            let span = self.slice(third_index, end);
            let v = parse_digits(span, radix);
            return Token::Number(Number::U64(v));
        }
        self.untick(third_index, third_char);
        self.untick(second_index, second_char);
        proof {
            assert(scan_number(s, p) == (Scan::IntLit { end: p + 1, v: 0nat }));
        }
        Token::Number(Number::I64(0))
    }

    /// Decode one `\u{...}` escape whose backslash stands at `q`; the
    /// cursor stands just past the opening brace.
    fn lex_unicode_escape(&mut self, q: usize) -> (r: EscapeStep)
        requires
            old(self).wf(),
            ({
                let s = old(self).source@;
                let qq = q as int;
                &&& qq + 2 < s.len()
                &&& s[qq + 2] == '{'
                &&& old(self).cur() == qq + 3
                &&& !(scan_unicode_escape(s, qq) is Panic)
            }),
        ensures
            final(self).wf(),
            final(self).source == old(self).source,
            final(self).cur() >= old(self).cur(),
            ({
                let s = old(self).source@;
                match scan_unicode_escape(s, q as int) {
                    UniScan::Next { at, c } => r == EscapeStep::Decoded(c) && final(self).cur()
                        == at,
                    UniScan::Fail { end, msg } => (r matches EscapeStep::Failed(m) && m@ == msg)
                        && final(self).cur() == end,
                    UniScan::Panic => false,
                }
            }),
    {
        let ghost s = self.source@;
        let ghost qq = q as int;
        let digits_start = q + 3;
        let j = find_hex_run(self.source, digits_start, 7);
        proof {
            lemma_hex_run_len_bounds(s, qq + 3, 7);
        }
        let b = digits_start + j;
        if j >= 7 {
            self.advance_to(b);
            return EscapeStep::Failed(
                String::from_str("overlong unicode escape (can have at most 6 hex digits)"),
            );
        }
        if b >= self.len {
            self.advance_to(self.len);
            if j == 6 {
                return EscapeStep::Failed(
                    String::from_str("overlong unicode escape (can have at most 6 hex digits)"),
                );
            }
            let mut m = String::from_str("invalid character in unicode escape: ");
            push_char(&mut m, '\0');
            return EscapeStep::Failed(m);
        }
        let cb = self.source.get_char(b);
        if cb == '}' {
            proof {
                if j == 0 {
                    assert(scan_unicode_escape(s, qq) is Panic);
                }
            }
            self.advance_to(b + 1);
            let hexs = self.slice(digits_start, b);
            proof {
                lemma_digits_value_bound(s.subrange(qq + 3, qq + 3 + j), 16);
                vstd::arithmetic::power::lemma_pow_increases(16nat, j as nat, 6nat);
                assert(vstd::arithmetic::power::pow(16, 6) == 0x1000000) by {
                    reveal_with_fuel(vstd::arithmetic::power::pow, 7);
                }
            }
            let v = parse_digits(hexs, 16);
            match char_from_u32(v as u32) {
                Some(ch) => {
                    proof {
                        vstd::utf8::char_u32_cast(ch, ch as u32);
                    }
                    EscapeStep::Decoded(ch)
                },
                None => EscapeStep::Failed(String::from_str("invalid unicode character escape")),
            }
        } else if j == 6 {
            self.advance_to(b + 1);
            EscapeStep::Failed(
                String::from_str("overlong unicode escape (can have at most 6 hex digits)"),
            )
        } else {
            self.advance_to(b + 1);
            let mut m = String::from_str("invalid character in unicode escape: ");
            push_char(&mut m, cb);
            EscapeStep::Failed(m)
        }
    }

    /// Scan the interior of a string literal, with `out` the text
    /// decoded so far, following the grammar's escape rules.
    fn lex_string_body(&mut self, out: String) -> (t: Token)
        requires
            old(self).wf(),
            0 <= old(self).cur() <= old(self).source@.len(),
            !(scan_string(old(self).source@, old(self).cur(), out@) is Panic),
        ensures
            final(self).wf(),
            final(self).source == old(self).source,
            ({
                let s = old(self).source@;
                match scan_string(s, old(self).cur(), out@) {
                    StrScan::Done { end, text } => (t matches Token::String(x) && x@ == text)
                        && final(self).cur() == end,
                    StrScan::Broken { text } => (t matches Token::BrokenString(x) && x@ == text)
                        && final(self).cur() == s.len(),
                    StrScan::Fail { end, msg } => (t matches Token::Error(m) && m@ == msg)
                        && final(self).cur() == end,
                    StrScan::Panic => false,
                }
            }),
        decreases old(self).source@.len() - old(self).cur(),
    {
        let ghost s = self.source@;
        let ghost q = self.cur();
        let mut out = out;
        let (index, c) = self.tick();
        if index >= self.len {
            return Token::BrokenString(out);
        }
        if c == '\\' {
            let (index2, c2) = self.tick();
            if index2 >= self.len {
                return Token::BrokenString(out);
            }
            if c2 == 'n' {
                push_char(&mut out, '\n');
                self.lex_string_body(out)
            } else if c2 == 't' {
                push_char(&mut out, '\t');
                self.lex_string_body(out)
            } else if c2 == '\\' {
                push_char(&mut out, '\\');
                self.lex_string_body(out)
            } else if c2 == '"' {
                push_char(&mut out, '"');
                self.lex_string_body(out)
            } else if c2 == 'x' {
                let (_h1i, h1c) = self.tick();
                let (_h2i, h2c) = self.tick();
                let d1o = digit_of(h1c, 16);
                let d2o = digit_of(h2c, 16);
                if d1o.is_some() && d2o.is_some() {
                    let d1 = d1o.unwrap();
                    let d2 = d2o.unwrap();
                    let v = d1 * 16 + d2;
                    if v <= 0x7f {
                        let ch = char_from_u32(v).unwrap();
                        proof {
                            vstd::utf8::char_u32_cast(ch, ch as u32);
                        }
                        push_char(&mut out, ch);
                        self.lex_string_body(out)
                    } else {
                        Token::Error(
                            String::from_str(
                                "this form of character escape may only be used with characters in the range [\\x00-\\x7f]",
                            ),
                        )
                    }
                } else {
                    Token::Error(String::from_str("numeric character escape is too short"))
                }
            } else if c2 == 'u' {
                let (_i3, c3) = self.tick();
                if c3 != '{' {
                    return Token::Error(String::from_str("incorrect unicode escape sequence"));
                }
                proof {
                    assert(!(scan_unicode_escape(s, index as int) is Panic));
                }
                match self.lex_unicode_escape(index) {
                    EscapeStep::Decoded(ch) => {
                        push_char(&mut out, ch);
                        self.lex_string_body(out)
                    },
                    EscapeStep::Failed(m) => Token::Error(m),
                }
            } else {
                self.lex_string_body(out)
            }
        } else if c == '"' {
            Token::String(out)
        } else {
            push_char(&mut out, c);
            self.lex_string_body(out)
        }
    }

    /// Scan the interior of a block comment opened at `first_index`,
    /// tracking the nesting `depth` and the position `last_index` where
    /// the most recent closing delimiter ended the text.
    fn lex_comment_body(&mut self, first_index: usize, depth: usize, last_index: usize) -> (t:
        Token)
        requires
            old(self).wf(),
            first_index as int + 2 <= old(self).cur() <= old(self).source@.len(),
            1 <= depth,
            depth as int <= old(self).cur(),
            last_index as int <= old(self).source@.len(),
        ensures
            final(self).wf(),
            final(self).source == old(self).source,
            ({
                let s = old(self).source@;
                let p = first_index as int;
                match scan_comment(s, old(self).cur(), depth as int, last_index as int) {
                    CmtScan::Done { end, last } => (t matches Token::Comment(x) && x@
                        == s.subrange(p + 2, last)) && final(self).cur() == end,
                    CmtScan::Broken => (t matches Token::BrokenComment(x) && x@ == s.subrange(
                        p + 2,
                        s.len() as int,
                    )) && final(self).cur() == s.len(),
                }
            }),
        decreases old(self).source@.len() - old(self).cur(),
    {
        let ghost s = self.source@;
        let ghost q = self.cur();
        let (index, c) = self.tick();
        if index >= self.len {
            let tail = self.slice(first_index + 2, self.len);
            return Token::BrokenComment(tail.to_owned());
        }
        if c == '/' {
            let (_i2, c2) = self.tick();
            if c2 == '*' {
                return self.lex_comment_body(first_index, depth + 1, last_index);
            }
            return self.lex_comment_body(first_index, depth, last_index);
        }
        if c == '*' {
            let (_i2, c2) = self.tick();
            if c2 == '/' {
                if depth == 1 {
                    let text = self.slice(first_index + 2, index);
                    return Token::Comment(text.to_owned());
                }
                return self.lex_comment_body(first_index, depth - 1, index);
            }
            return self.lex_comment_body(first_index, depth, last_index);
        }
        self.lex_comment_body(first_index, depth, last_index)
    }

    /// Produce the next token, or `None` once the input is exhausted.
    ///
    /// Identifiers, whitespace runs and operators are interned in
    /// `table`; the operator sub-scanner consults `registry` for its
    /// longest-prefix match.  A character no rule recognizes becomes a
    /// one-character `Error` token, so scanning always moves forward.
    pub fn next(&mut self, table: &mut Table, registry: &OperatorRegistry) -> (r: Option<Token>)
        requires
            old(self).wf(),
            old(table).wf(),
            registry.wf(),
            !(scan_at(
                old(self).source@,
                old(self).cur(),
                registry.spellings@.map_values(|x: String| x@),
            ) is Panics),
        ensures
            final(self).wf(),
            final(self).source == old(self).source,
            final(table).wf(),
            ({
                let s = old(self).source@;
                let p = old(self).cur();
                let ops = registry.spellings@.map_values(|x: String| x@);
                match scan_at(s, p, ops) {
                    Scan::Eof => r is None && *final(table) == *old(table) && final(self).cur()
                        == p,
                    Scan::Ident { end } => (r matches Some(Token::Identifier(sym)) && intern_rel(
                        *old(table),
                        *final(table),
                        s.subrange(p, end),
                        sym,
                    )) && final(self).cur() == end,
                    Scan::Space { end } => (r matches Some(Token::Whitespace(sym)) && intern_rel(
                        *old(table),
                        *final(table),
                        s.subrange(p, end),
                        sym,
                    )) && final(self).cur() == end,
                    Scan::IntLit { end, v } => r == Some(Token::Number(Number::I64(v as i64)))
                        && *final(table) == *old(table) && final(self).cur() == end,
                    Scan::RadixLit { end, v } => r == Some(Token::Number(Number::U64(v as u64)))
                        && *final(table) == *old(table) && final(self).cur() == end,
                    Scan::FloatLit { end, text } => (r matches Some(Token::Number(Number::F64(f)))
                        && f@ == text) && *final(table) == *old(table) && final(self).cur() == end,
                    Scan::StrLit { end, text } => (r matches Some(Token::String(x)) && x@ == text)
                        && *final(table) == *old(table) && final(self).cur() == end,
                    Scan::BrokenStr { text } => (r matches Some(Token::BrokenString(x)) && x@
                        == text) && *final(table) == *old(table) && final(self).cur() == s.len(),
                    Scan::ErrTok { end, msg } => (r matches Some(Token::Error(m)) && m@ == msg)
                        && *final(table) == *old(table) && final(self).cur() == end,
                    Scan::CommentTok { end, text } => (r matches Some(Token::Comment(x)) && x@
                        == text) && *final(table) == *old(table) && final(self).cur() == end,
                    Scan::BrokenCmt { text } => (r matches Some(Token::BrokenComment(x)) && x@
                        == text) && *final(table) == *old(table) && final(self).cur() == s.len(),
                    Scan::OpTok { end } => (r matches Some(Token::Operator(sym)) && intern_rel(
                        *old(table),
                        *final(table),
                        s.subrange(p, end),
                        sym,
                    )) && final(self).cur() == end,
                    Scan::Panics => false,
                }
            }),
    {
        let ghost s = self.source@;
        let ghost ops = registry.spellings@.map_values(|x: String| x@);
        let ghost p = self.cur();
        let (first_index, first_char) = self.tick();
        if first_index >= self.len {
            return None;
        }
        proof {
            assert(first_char == s[p]);
        }
        if xid_start_char(first_char) {
            let end = self.run_ident(first_index + 1);
            proof {
                lemma_scan_while_bounds(s, p + 1, xid_cont_f());
            }
            let sym = self.slice_intern(table, first_index, end);
            return Some(Token::Identifier(sym));
        }
        if space_char(first_char) {
            let end = self.run_space(first_index + 1);
            proof {
                lemma_scan_while_bounds(s, p + 1, space_f());
            }
            let sym = self.slice_intern(table, first_index, end);
            return Some(Token::Whitespace(sym));
        }
        let digit = digit_of(first_char, 10);
        if digit.is_some() {
            return Some(self.lex_number(first_index, digit.unwrap()));
        }
        if first_char == '"' {
            return Some(self.lex_string_body(String::new()));
        }
        if first_char == '/' {
            let (second_index, second_char) = self.tick();
            if second_char == '*' {
                return Some(self.lex_comment_body(first_index, 1, second_index));
            }
            self.untick(second_index, second_char);
        }
        self.untick(first_index, first_char);
        let m_opt = registry.longest_match(self.source, first_index);
        match m_opt {
            Some(m) => {
                proof {
                    assert(registry.best_match(s.skip(p)) == best_upto(ops, s.skip(p), ops.len() as int));
                    assert(is_prefix_of(m@, s.skip(p))) by {
                        crate::registry::lemma_best_upto_maximal(ops, s.skip(p), ops.len() as int);
                    }
                    assert(m@ =~= s.subrange(p, p + m@.len()));
                }
                let mlen = m.as_str().unicode_len();
                self.advance_to(first_index + mlen);
                let sym = self.intern(table, m.as_str());
                Some(Token::Operator(sym))
            },
            None => {
                let (_i1, c1) = self.tick();
                let mut msg = String::from_str("unrecognized character: ");
                push_char(&mut msg, c1);
                Some(Token::Error(msg))
            },
        }
    }

    /// Intern the source text between two character positions.
    fn slice_intern(&self, table: &mut Table, start: usize, end: usize) -> (r: Symbol)
        requires
            self.wf(),
            start <= end <= self.len,
            old(table).wf(),
        ensures
            intern_rel(
                *old(table),
                *final(table),
                self.source@.subrange(start as int, end as int),
                r,
            ),
    {
        let s = self.slice(start, end);
        self.intern(table, s)
    }
}

/// The end of the identifier-continue run starting at `from`.
fn find_ident_end(src: &str, from: usize) -> (r: usize)
    requires
        from as int <= src@.len(),
    ensures
        r as int == scan_while(src@, from as int, xid_cont_f()),
        from <= r,
        r as int <= src@.len(),
{
    let n = src.unicode_len();
    let mut i: usize = from;
    while i < n
        invariant
            n == src@.len(),
            from <= i <= n,
            scan_while(src@, from as int, xid_cont_f()) == scan_while(src@, i as int, xid_cont_f()),
        decreases n - i,
    {
        let c = src.get_char(i);
        if !xid_continue_char(c) {
            proof {
                assert(scan_while(src@, i as int, xid_cont_f()) == i as int);
            }
            return i;
        }
        proof {
            assert(xid_cont_f()(src@[i as int]));
            assert(scan_while(src@, i as int, xid_cont_f()) == scan_while(
                src@,
                i as int + 1,
                xid_cont_f(),
            ));
        }
        i = i + 1;
    }
    proof {
        assert(scan_while(src@, i as int, xid_cont_f()) == i as int);
    }
    i
}

/// The end of the whitespace run starting at `from`.
fn find_space_end(src: &str, from: usize) -> (r: usize)
    requires
        from as int <= src@.len(),
    ensures
        r as int == scan_while(src@, from as int, space_f()),
        from <= r,
        r as int <= src@.len(),
{
    let n = src.unicode_len();
    let mut i: usize = from;
    while i < n
        invariant
            n == src@.len(),
            from <= i <= n,
            scan_while(src@, from as int, space_f()) == scan_while(src@, i as int, space_f()),
        decreases n - i,
    {
        let c = src.get_char(i);
        if !space_char(c) {
            proof {
                assert(scan_while(src@, i as int, space_f()) == i as int);
            }
            return i;
        }
        proof {
            assert(space_f()(src@[i as int]));
            assert(scan_while(src@, i as int, space_f()) == scan_while(
                src@,
                i as int + 1,
                space_f(),
            ));
        }
        i = i + 1;
    }
    proof {
        assert(scan_while(src@, i as int, space_f()) == i as int);
    }
    i
}

/// The end of the base-`radix` digit-and-separator run starting at
/// `from`.
fn find_digits_end(src: &str, from: usize, radix: u32) -> (r: usize)
    requires
        from as int <= src@.len(),
        2 <= radix <= 36,
    ensures
        r as int == scan_while(src@, from as int, dig_us_f(radix)),
        from <= r,
        r as int <= src@.len(),
{
    let n = src.unicode_len();
    let mut i: usize = from;
    while i < n
        invariant
            n == src@.len(),
            from <= i <= n,
            2 <= radix <= 36,
            scan_while(src@, from as int, dig_us_f(radix)) == scan_while(
                src@,
                i as int,
                dig_us_f(radix),
            ),
        decreases n - i,
    {
        let c = src.get_char(i);
        if digit_of(c, radix).is_none() && c != '_' {
            proof {
                assert(!(dig_us_f(radix)(src@[i as int])));
                assert(scan_while(src@, i as int, dig_us_f(radix)) == i as int);
            }
            return i;
        }
        proof {
            assert(dig_us_f(radix)(src@[i as int]));
            assert(scan_while(src@, i as int, dig_us_f(radix)) == scan_while(
                src@,
                i as int + 1,
                dig_us_f(radix),
            ));
        }
        i = i + 1;
    }
    proof {
        assert(scan_while(src@, i as int, dig_us_f(radix)) == i as int);
    }
    i
}

/// The number of consecutive hexadecimal digits at `from`, capped at
/// `cap`.
fn find_hex_run(src: &str, from: usize, cap: usize) -> (r: usize)
    requires
        from as int <= src@.len(),
        cap <= 16,
    ensures
        r as nat == hex_run_len(src@, from as int, cap as nat),
        r <= cap,
    decreases cap,
{
    if cap == 0 {
        0
    } else if from < src.unicode_len() && digit_of(src.get_char(from), 16).is_some() {
        1 + find_hex_run(src, from + 1, cap - 1)
    } else {
        0
    }
}

/// The numeric value of the base-`radix` digit text `text`, separators
/// skipped.
fn parse_digits(text: &str, radix: u32) -> (r: u64)
    requires
        2 <= radix <= 36,
        digits_value(text@, radix) <= u64::MAX,
    ensures
        r as nat == digits_value(text@, radix),
{
    let n = text.unicode_len();
    let mut acc: u64 = 0;
    let mut i: usize = 0;
    while i < n
        invariant
            n == text@.len(),
            i <= n,
            2 <= radix <= 36,
            digits_value(text@, radix) <= u64::MAX,
            acc as nat == digits_value(text@.subrange(0, i as int), radix),
        decreases n - i,
    {
        let c = text.get_char(i);
        proof {
            assert(text@.subrange(0, i + 1).drop_last() =~= text@.subrange(0, i as int));
            assert(text@.subrange(0, i + 1).last() == c);
            lemma_digits_value_prefix(text@, radix, i + 1);
        }
        match digit_of(c, radix) {
            Some(d) => {
                acc = acc * (radix as u64) + (d as u64);
            },
            None => {
                // a separator or stray character contributes nothing
            },
        }
        i = i + 1;
    }
    proof {
        assert(text@.subrange(0, n as int) =~= text@);
    }
    acc
}

/// `text` with every `_` separator removed.
fn strip_underscores(text: &str) -> (r: String)
    ensures
        r@ == no_underscore(text@),
{
    let n = text.unicode_len();
    let mut out = String::new();
    let mut i: usize = 0;
    while i < n
        invariant
            n == text@.len(),
            i <= n,
            out@ == no_underscore(text@.subrange(0, i as int)),
        decreases n - i,
    {
        let c = text.get_char(i);
        proof {
            reveal(Seq::filter);
            assert(text@.subrange(0, i + 1).drop_last() =~= text@.subrange(0, i as int));
            assert(text@.subrange(0, i + 1).last() == c);
        }
        if c != '_' {
            push_char(&mut out, c);
        }
        i = i + 1;
    }
    proof {
        assert(text@.subrange(0, n as int) =~= text@);
    }
    out
}

} // verus!
