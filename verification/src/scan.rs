//! The scanner: classifies positioned characters into tokens.
//!
//! The spec functions in this module form the mathematical model of the
//! lexer: `scan_spec` says what one scan step produces on a remaining
//! character sequence, and `tokens_spec` what a whole scan of it yields.
//! The executable functions are proved to follow that model exactly.
//!
//! Error strategy: every scan failure is reported as a per-token
//! `ScanError` carrying the failing character's position, and the caller
//! decides whether to go on; `tokenize` stops at the first error.

use vstd::arithmetic::div_mod::lemma_add_mod_noop;
use vstd::arithmetic::div_mod::lemma_mul_mod_noop_right;
use vstd::arithmetic::div_mod::lemma_small_mod;
use vstd::prelude::*;
use vstd::string::StrSliceExecFns;

use crate::cursor::expansion;
use crate::cursor::Cursor;
use crate::token::Char;
use crate::token::ErrorKind;
use crate::token::ReservedKind;
use crate::token::ScanError;
use crate::token::SpecKind;
use crate::token::SpecToken;
use crate::token::Token;
use crate::token::TokenKind;

verus! {

/// Relies on String::push: appends one character at the end of the string.
pub assume_specification[ String::push ](s: &mut String, c: char)
    ensures
        final(s)@ == old(s)@.push(c),
;

/// The whitespace set: tab, line feed, carriage return, space.
pub open spec fn is_whitespace_char(c: char) -> bool {
    c == '\t' || c == '\n' || c == '\r' || c == ' '
}

/// ASCII alphabetic: `A`-`Z` or `a`-`z`.
pub open spec fn is_ascii_alpha_char(c: char) -> bool {
    (65 <= c as u32 && c as u32 <= 90) || (97 <= c as u32 && c as u32 <= 122)
}

/// ASCII decimal digit: `0`-`9`.
pub open spec fn is_ascii_digit_char(c: char) -> bool {
    48 <= c as u32 && c as u32 <= 57
}

/// A character that may continue an identifier: alphanumeric or `_`.
pub open spec fn is_ident_continue_char(c: char) -> bool {
    is_ascii_alpha_char(c) || is_ascii_digit_char(c) || c == '_'
}

/// The 25 fixed one-character punctuators (`/` is among them, though the
/// scanner first checks it for a comment opener).
pub open spec fn is_punct_char(c: char) -> bool {
    c == ';' || c == ',' || c == '.' || c == '(' || c == ')' || c == '{' || c == '}' || c == '['
        || c == ']' || c == '@' || c == '#' || c == '~' || c == '?' || c == ':' || c == '$' || c
        == '=' || c == '!' || c == '<' || c == '>' || c == '-' || c == '&' || c == '|' || c == '+'
        || c == '*' || c == '/' || c == '^' || c == '%'
}

/// The whitespace predicate as a value, for maximal-run statements.
pub open spec fn ws_pred() -> spec_fn(char) -> bool {
    |c: char| is_whitespace_char(c)
}

/// The identifier-continuation predicate as a value.
pub open spec fn ident_cont_pred() -> spec_fn(char) -> bool {
    |c: char| is_ident_continue_char(c)
}

/// The decimal-digit predicate as a value.
pub open spec fn digit_pred() -> spec_fn(char) -> bool {
    |c: char| is_ascii_digit_char(c)
}

/// The comment-body predicate as a value: everything up to a line feed.
pub open spec fn not_newline_pred() -> spec_fn(char) -> bool {
    |c: char| c != '\n'
}

/// The length of the maximal prefix of `s` whose characters all satisfy `p`.
pub open spec fn run_len(s: Seq<Char>, p: spec_fn(char) -> bool) -> nat
    decreases s.len(),
{
    if s.len() == 0 || !p(s[0].c) {
        0
    } else {
        1 + run_len(s.skip(1), p)
    }
}

/// The characters of that maximal prefix, in order.
pub open spec fn run_chars(s: Seq<Char>, p: spec_fn(char) -> bool) -> Seq<char> {
    Seq::new(run_len(s, p), |i: int| s[i].c)
}

/// A maximal run never runs past the end of the sequence.
pub proof fn lemma_run_len_le(s: Seq<Char>, p: spec_fn(char) -> bool)
    ensures
        run_len(s, p) <= s.len(),
    decreases s.len(),
{
    if s.len() != 0 && p(s[0].c) {
        lemma_run_len_le(s.skip(1), p);
    }
}

/// A prefix of accepted characters that stops at a rejected character (or
/// at the end) is the maximal run.
pub proof fn lemma_run_len_from_bounds(s: Seq<Char>, p: spec_fn(char) -> bool, n: int)
    requires
        0 <= n <= s.len(),
        forall|i: int| 0 <= i < n ==> p(#[trigger] s[i].c),
        n < s.len() ==> !p(s[n].c),
    ensures
        run_len(s, p) == n,
    decreases n,
{
    if n == 0 {
    } else {
        assert(p(s[0].c));
        assert forall|i: int| 0 <= i < n - 1 implies p(#[trigger] s.skip(1)[i].c) by {
            assert(s.skip(1)[i] == s[i + 1]);
        }
        if n - 1 < s.skip(1).len() {
            assert(s.skip(1)[n - 1] == s[n]);
        }
        lemma_run_len_from_bounds(s.skip(1), p, n - 1);
    }
}

/// Which keyword, if any, a word matches exactly.
pub open spec fn reserved_of(word: Seq<char>) -> Option<ReservedKind> {
    if word == seq!['t', 'y', 'p', 'e'] {
        Some(ReservedKind::Type)
    } else if word == seq!['e', 'n', 'u', 'm'] {
        Some(ReservedKind::Enum)
    } else if word == seq!['l', 'o', 'g', 'i', 'c'] {
        Some(ReservedKind::Logic)
    } else {
        None
    }
}

/// The classification of an accumulated word: an exact keyword match wins
/// over the identifier reading.
pub open spec fn ident_kind(word: Seq<char>) -> SpecKind {
    match reserved_of(word) {
        Some(k) => SpecKind::Reserved(k),
        None => SpecKind::Ident(word),
    }
}

/// The value of a decimal digit string.
pub open spec fn dec_val(digits: Seq<char>) -> int
    decreases digits.len(),
{
    if digits.len() == 0 {
        0
    } else {
        10 * dec_val(digits.drop_last()) + (digits.last() as u32 - 48)
    }
}

/// The value of a bit string read most-significant bit first.
pub open spec fn bits_val(bits: Seq<bool>) -> nat
    decreases bits.len(),
{
    if bits.len() == 0 {
        0
    } else {
        (2 * bits_val(bits.drop_last()) + (if bits.last() {
            1nat
        } else {
            0nat
        })) as nat
    }
}

/// The stored bitwidth of a bit literal: the low 32 bits of the bit count,
/// so that the construction is total.
pub open spec fn lit_width(bits: Seq<bool>) -> u32 {
    (bits.len() % 0x1_0000_0000) as u32
}

/// The stored value of a bit literal: the low 32 bits of the bit string's
/// value, so that the construction is total.
pub open spec fn lit_value(bits: Seq<bool>) -> u32 {
    (bits_val(bits) % 0x1_0000_0000) as u32
}

/// The outcome of scanning a bit literal's body: how many characters were
/// consumed and either the collected bits or the position of a `?` marker.
pub enum LitScan {
    Done { n: nat, bits: Seq<bool> },
    Unsupported { n: nat, error: ScanError },
}

/// Prepending one collected bit to a body-scan outcome.
pub open spec fn lit_step(bit: bool, rest: LitScan) -> LitScan {
    match rest {
        LitScan::Done { n, bits } => LitScan::Done { n: n + 1, bits: seq![bit] + bits },
        LitScan::Unsupported { n, error } => LitScan::Unsupported { n: n + 1, error },
    }
}

/// What scanning a bit literal's body does to the characters after the
/// opening quote: `_` collects a zero bit and `@` a one bit; a `"` is
/// consumed as the closing delimiter and ends the body; a `?` is the
/// unsupported don't-care marker and is left unconsumed; any other
/// character (or the end of input) ends the body without being consumed.
pub open spec fn scan_lit_body(s: Seq<Char>) -> LitScan
    decreases s.len(),
{
    if s.len() == 0 {
        LitScan::Done { n: 0, bits: Seq::empty() }
    } else if s[0].c == '_' || s[0].c == '@' {
        lit_step(s[0].c == '@', scan_lit_body(s.skip(1)))
    } else if s[0].c == '"' {
        LitScan::Done { n: 1, bits: Seq::empty() }
    } else if s[0].c == '?' {
        LitScan::Unsupported {
            n: 0,
            error: ScanError {
                line_num: s[0].line_num,
                row_num: s[0].row_num,
                kind: ErrorKind::UnsupportedLiteralBit,
            },
        }
    } else {
        LitScan::Done { n: 0, bits: Seq::empty() }
    }
}

/// A body scan consumes at most the whole sequence and collects at most
/// one bit per consumed character.
pub proof fn lemma_scan_lit_body_bounds(s: Seq<Char>)
    ensures
        match scan_lit_body(s) {
            LitScan::Done { n, bits } => n <= s.len() && bits.len() <= n,
            LitScan::Unsupported { n, error } => n < s.len(),
        },
    decreases s.len(),
{
    if s.len() != 0 && (s[0].c == '_' || s[0].c == '@') {
        lemma_scan_lit_body_bounds(s.skip(1));
    }
}

/// The outcome of one scan step on a remaining character sequence: the end
/// of the input, a token together with how many characters it consumed, or
/// a scan error together with how many characters the attempt consumed.
pub enum SpecStep {
    End,
    Tok { token: SpecToken, n: nat },
    Fail { error: ScanError, n: nat },
}

/// The mathematical model of one scan step.
///
/// The classes are tried in this order: whitespace; the fixed punctuators
/// other than `/`; `/` (a comment when a second `/` follows, the `/`
/// punctuator otherwise); an identifier or keyword on an ASCII-alphabetic
/// lead; a number on a digit lead, failing with `NumberOverflow` when the
/// digit run's value does not fit 32 bits (the run is still consumed); a
/// bit literal on a `"` lead; everything else fails as an unrecognized
/// character, which is consumed.
pub open spec fn scan_spec(rem: Seq<Char>) -> SpecStep {
    if rem.len() == 0 {
        SpecStep::End
    } else {
        let ch = rem[0];
        let c = ch.c;
        let line = ch.line_num as nat;
        let col = ch.row_num as nat;
        if is_whitespace_char(c) {
            SpecStep::Tok {
                token: SpecToken { line, col, kind: SpecKind::Whitespace },
                n: run_len(rem, ws_pred()),
            }
        } else if is_punct_char(c) && c != '/' {
            SpecStep::Tok { token: SpecToken { line, col, kind: SpecKind::Punct(c) }, n: 1 }
        } else if c == '/' {
            if rem.len() >= 2 && rem[1].c == '/' {
                SpecStep::Tok {
                    token: SpecToken { line, col, kind: SpecKind::Comment },
                    n: 2 + run_len(rem.skip(2), not_newline_pred()),
                }
            } else {
                SpecStep::Tok { token: SpecToken { line, col, kind: SpecKind::Punct('/') }, n: 1 }
            }
        } else if is_ascii_alpha_char(c) {
            SpecStep::Tok {
                token: SpecToken {
                    line,
                    col,
                    kind: ident_kind(seq![c] + run_chars(rem.skip(1), ident_cont_pred())),
                },
                n: 1 + run_len(rem.skip(1), ident_cont_pred()),
            }
        } else if is_ascii_digit_char(c) {
            let digits = seq![c] + run_chars(rem.skip(1), digit_pred());
            if dec_val(digits) <= u32::MAX {
                SpecStep::Tok {
                    token: SpecToken { line, col, kind: SpecKind::Number(dec_val(digits) as u32) },
                    n: 1 + run_len(rem.skip(1), digit_pred()),
                }
            } else {
                SpecStep::Fail {
                    error: ScanError {
                        line_num: ch.line_num,
                        row_num: ch.row_num,
                        kind: ErrorKind::NumberOverflow,
                    },
                    n: 1 + run_len(rem.skip(1), digit_pred()),
                }
            }
        } else if c == '"' {
            match scan_lit_body(rem.skip(1)) {
                LitScan::Done { n, bits } => SpecStep::Tok {
                    token: SpecToken {
                        line,
                        col,
                        kind: SpecKind::Literal {
                            bitwidth: lit_width(bits),
                            value: lit_value(bits),
                        },
                    },
                    n: (1 + n) as nat,
                },
                LitScan::Unsupported { n, error } => SpecStep::Fail { error, n: (1 + n) as nat },
            }
        } else {
            SpecStep::Fail {
                error: ScanError {
                    line_num: ch.line_num,
                    row_num: ch.row_num,
                    kind: ErrorKind::UnrecognizedCharacter,
                },
                n: 1,
            }
        }
    }
}

/// One scan step on a non-empty input consumes at least one and at most
/// all of the remaining characters; only an empty input ends the scan.
pub proof fn lemma_scan_spec_bounds(rem: Seq<Char>)
    ensures
        match scan_spec(rem) {
            SpecStep::End => rem.len() == 0,
            SpecStep::Tok { token, n } => 1 <= n <= rem.len(),
            SpecStep::Fail { error, n } => 1 <= n <= rem.len(),
        },
{
    if rem.len() > 0 {
        let c = rem[0].c;
        if is_whitespace_char(c) {
            lemma_run_len_le(rem, ws_pred());
        } else if is_punct_char(c) && c != '/' {
        } else if c == '/' {
            if rem.len() >= 2 && rem[1].c == '/' {
                lemma_run_len_le(rem.skip(2), not_newline_pred());
            }
        } else if is_ascii_alpha_char(c) {
            lemma_run_len_le(rem.skip(1), ident_cont_pred());
        } else if is_ascii_digit_char(c) {
            lemma_run_len_le(rem.skip(1), digit_pred());
        } else if c == '"' {
            lemma_scan_lit_body_bounds(rem.skip(1));
        }
    }
}

/// Prepending already-produced tokens to the outcome of scanning the rest.
pub open spec fn tokens_prepend(
    acc: Seq<SpecToken>,
    rest: Result<Seq<SpecToken>, ScanError>,
) -> Result<Seq<SpecToken>, ScanError> {
    match rest {
        Ok(toks) => Ok(acc + toks),
        Err(e) => Err(e),
    }
}

/// The mathematical model of a whole scan: the tokens produced in source
/// order, or the first scan error.
pub open spec fn tokens_spec(rem: Seq<Char>) -> Result<Seq<SpecToken>, ScanError>
    decreases rem.len(),
    via tokens_spec_decreases
{
    match scan_spec(rem) {
        SpecStep::End => Ok(Seq::empty()),
        SpecStep::Tok { token, n } => tokens_prepend(seq![token], tokens_spec(rem.skip(n as int))),
        SpecStep::Fail { error, n } => Err(error),
    }
}

#[via_fn]
proof fn tokens_spec_decreases(rem: Seq<Char>) {
    lemma_scan_spec_bounds(rem);
}

fn is_whitespace(c: char) -> (b: bool)
    ensures
        b == is_whitespace_char(c),
{
    c == '\t' || c == '\n' || c == '\r' || c == ' '
}

fn is_ascii_alpha(c: char) -> (b: bool)
    ensures
        b == is_ascii_alpha_char(c),
{
    let u = c as u32;
    (65 <= u && u <= 90) || (97 <= u && u <= 122)
}

fn is_ascii_digit(c: char) -> (b: bool)
    ensures
        b == is_ascii_digit_char(c),
{
    let u = c as u32;
    48 <= u && u <= 57
}

fn is_ident_continue(c: char) -> (b: bool)
    ensures
        b == is_ident_continue_char(c),
{
    is_ascii_alpha(c) || is_ascii_digit(c) || c == '_'
}

/// Character-by-character string equality, stated over the views.
fn str_eq(a: &str, b: &str) -> (r: bool)
    ensures
        r == (a@ == b@),
{
    let n = a.unicode_len();
    if n != b.unicode_len() {
        proof {
            assert(a@ != b@);
        }
        return false;
    }
    let mut i: usize = 0;
    while i < n
        invariant
            n == a@.len(),
            n == b@.len(),
            0 <= i <= n,
            forall|j: int| 0 <= j < i ==> a@[j] == b@[j],
        decreases n - i,
    {
        if a.get_char(i) != b.get_char(i) {
            proof {
                assert(a@[i as int] != b@[i as int]);
            }
            return false;
        }
        i = i + 1;
    }
    proof {
        assert(a@ =~= b@);
    }
    true
}

/// Looks a word up in the fixed keyword table.
pub fn detect_reserved(word: &str) -> (r: Option<ReservedKind>)
    ensures
        r == reserved_of(word@),
{
    proof {
        reveal_strlit("type");
        reveal_strlit("enum");
        reveal_strlit("logic");
        assert("type"@ =~= seq!['t', 'y', 'p', 'e']);
        assert("enum"@ =~= seq!['e', 'n', 'u', 'm']);
        assert("logic"@ =~= seq!['l', 'o', 'g', 'i', 'c']);
    }
    if str_eq(word, "type") {
        Some(ReservedKind::Type)
    } else if str_eq(word, "enum") {
        Some(ReservedKind::Enum)
    } else if str_eq(word, "logic") {
        Some(ReservedKind::Logic)
    } else {
        None
    }
}

/// Scans the continuation of an identifier or keyword whose first
/// character, already consumed, is `first`: consumes the maximal run of
/// alphanumerics and `_`, and classifies the accumulated word, an exact
/// keyword match taking priority over `Ident`.
pub fn scan_ident_or_reserved(cur: &mut Cursor, first: Char) -> (k: TokenKind)
    requires
        old(cur).wf(),
    ensures
        final(cur).wf(),
        final(cur).remaining() == old(cur).remaining().skip(
            run_len(old(cur).remaining(), ident_cont_pred()) as int,
        ),
        k@ == ident_kind(seq![first.c] + run_chars(old(cur).remaining(), ident_cont_pred())),
{
    let ghost rem0 = cur.remaining();
    let ghost mut j: int = 0;
    let mut word = String::new();
    word.push(first.c);
    proof {
        assert(word@ =~= seq![first.c] + Seq::new(j as nat, |i: int| rem0[i].c));
    }
    loop
        invariant
            cur.wf(),
            0 <= j <= rem0.len(),
            cur.remaining() == rem0.skip(j),
            forall|i: int| 0 <= i < j ==> is_ident_continue_char(#[trigger] rem0[i].c),
            word@ == seq![first.c] + Seq::new(j as nat, |i: int| rem0[i].c),
        ensures
            cur.wf(),
            cur.remaining() == rem0.skip(j),
            run_len(rem0, ident_cont_pred()) == j,
            word@ == seq![first.c] + Seq::new(j as nat, |i: int| rem0[i].c),
        decreases rem0.len() - j,
    {
        let nxt = cur.peek();
        match nxt {
            Some(ch) => {
                proof {
                    assert(rem0[j] == ch);
                }
                if is_ident_continue(ch.c) {
                    word.push(ch.c);
                    let _ = cur.next();
                    proof {
                        assert(rem0.skip(j).skip(1) =~= rem0.skip(j + 1));
                        j = j + 1;
                        assert(word@ =~= seq![first.c] + Seq::new(j as nat, |i: int| rem0[i].c));
                    }
                } else {
                    proof {
                        lemma_run_len_from_bounds(rem0, ident_cont_pred(), j);
                    }
                    break ;
                }
            },
            None => {
                proof {
                    lemma_run_len_from_bounds(rem0, ident_cont_pred(), j);
                }
                break ;
            },
        }
    }
    proof {
        assert(run_chars(rem0, ident_cont_pred()) =~= Seq::new(j as nat, |i: int| rem0[i].c));
    }
    match detect_reserved(word.as_str()) {
        Some(rk) => TokenKind::Reserved(rk),
        None => TokenKind::Ident(word),
    }
}

/// Scans the continuation of a number whose first digit, already consumed,
/// is `first`: consumes the maximal digit run and parses it as an unsigned
/// 32-bit decimal integer, failing with `NumberOverflow` at the number's
/// first character when the run's value does not fit.
pub fn scan_number(cur: &mut Cursor, first: Char) -> (r: Result<TokenKind, ScanError>)
    requires
        old(cur).wf(),
        is_ascii_digit_char(first.c),
    ensures
        final(cur).wf(),
        final(cur).remaining() == old(cur).remaining().skip(
            run_len(old(cur).remaining(), digit_pred()) as int,
        ),
        ({
            let digits = seq![first.c] + run_chars(old(cur).remaining(), digit_pred());
            &&& dec_val(digits) <= u32::MAX ==> (r matches Ok(k) && k@ == SpecKind::Number(
                dec_val(digits) as u32,
            ))
            &&& dec_val(digits) > u32::MAX ==> r == Err::<TokenKind, ScanError>(
                ScanError {
                    line_num: first.line_num,
                    row_num: first.row_num,
                    kind: ErrorKind::NumberOverflow,
                },
            )
        }),
{
    let ghost rem0 = cur.remaining();
    let ghost mut j: int = 0;
    let mut acc: u64 = (first.c as u32 - 48) as u64;
    proof {
        let ds = seq![first.c] + Seq::new(j as nat, |i: int| rem0[i].c);
        assert(ds.len() == 1);
        assert(ds.drop_last() =~= Seq::<char>::empty());
        assert(dec_val(Seq::<char>::empty()) == 0);
        assert(ds.last() == first.c);
        assert(dec_val(ds) == first.c as u32 - 48);
    }
    loop
        invariant
            cur.wf(),
            0 <= j <= rem0.len(),
            cur.remaining() == rem0.skip(j),
            forall|i: int| 0 <= i < j ==> is_ascii_digit_char(#[trigger] rem0[i].c),
            is_ascii_digit_char(first.c),
            acc <= 0x1_0000_0000,
            ({
                let ds = seq![first.c] + Seq::new(j as nat, |i: int| rem0[i].c);
                &&& dec_val(ds) <= u32::MAX ==> acc == dec_val(ds)
                &&& dec_val(ds) > u32::MAX ==> acc == 0x1_0000_0000
            }),
        ensures
            cur.wf(),
            cur.remaining() == rem0.skip(j),
            run_len(rem0, digit_pred()) == j,
            acc <= 0x1_0000_0000,
            ({
                let ds = seq![first.c] + Seq::new(j as nat, |i: int| rem0[i].c);
                &&& dec_val(ds) <= u32::MAX ==> acc == dec_val(ds)
                &&& dec_val(ds) > u32::MAX ==> acc == 0x1_0000_0000
            }),
        decreases rem0.len() - j,
    {
        let nxt = cur.peek();
        match nxt {
            Some(ch) => {
                proof {
                    assert(rem0[j] == ch);
                }
                if is_ascii_digit(ch.c) {
                    let d = (ch.c as u32 - 48) as u64;
                    let t = acc * 10 + d;
                    proof {
                        let ds = seq![first.c] + Seq::new(j as nat, |i: int| rem0[i].c);
                        let ds2 = seq![first.c] + Seq::new((j + 1) as nat, |i: int| rem0[i].c);
                        assert(ds2.drop_last() =~= ds);
                        assert(ds2.last() == ch.c);
                        assert(dec_val(ds2) == 10 * dec_val(ds) + (ch.c as u32 - 48));
                        if dec_val(ds) > u32::MAX {
                            assert(10 * dec_val(ds) >= 10 * 0x1_0000_0000) by (nonlinear_arith)
                                requires
                                    dec_val(ds) >= 0x1_0000_0000,
                            ;
                        }
                    }
                    acc = if t > 0xFFFF_FFFF {
                        0x1_0000_0000
                    } else {
                        t
                    };
                    let _ = cur.next();
                    proof {
                        assert(rem0.skip(j).skip(1) =~= rem0.skip(j + 1));
                        j = j + 1;
                    }
                } else {
                    proof {
                        lemma_run_len_from_bounds(rem0, digit_pred(), j);
                    }
                    break ;
                }
            },
            None => {
                proof {
                    lemma_run_len_from_bounds(rem0, digit_pred(), j);
                }
                break ;
            },
        }
    }
    proof {
        assert(run_chars(rem0, digit_pred()) =~= Seq::new(j as nat, |i: int| rem0[i].c));
    }
    if acc <= 0xFFFF_FFFF {
        Ok(TokenKind::Number(acc as u32))
    } else {
        Err(
            ScanError {
                line_num: first.line_num,
                row_num: first.row_num,
                kind: ErrorKind::NumberOverflow,
            },
        )
    }
}

/// Prepending `k` already-consumed characters and their collected bits to
/// a body-scan outcome.
pub open spec fn lit_prepend(k: nat, acc: Seq<bool>, rest: LitScan) -> LitScan {
    match rest {
        LitScan::Done { n, bits } => LitScan::Done { n: (k + n) as nat, bits: acc + bits },
        LitScan::Unsupported { n, error } => LitScan::Unsupported { n: (k + n) as nat, error },
    }
}

proof fn lemma_lit_prepend_empty(x: LitScan)
    ensures
        lit_prepend(0, Seq::empty(), x) == x,
{
    match x {
        LitScan::Done { n, bits } => {
            assert(Seq::empty() + bits =~= bits);
        },
        LitScan::Unsupported { n, error } => {
        },
    }
}

proof fn lemma_lit_prepend_step(k: nat, acc: Seq<bool>, bit: bool, x: LitScan)
    ensures
        lit_prepend(k, acc, lit_step(bit, x)) == lit_prepend((k + 1) as nat, acc.push(bit), x),
{
    match x {
        LitScan::Done { n, bits } => {
            assert(acc + (seq![bit] + bits) =~= acc.push(bit) + bits);
        },
        LitScan::Unsupported { n, error } => {
        },
    }
}

/// Stepping the low-32-bit accumulators: appending a bit doubles the bit
/// string's value and adds the bit, and the stored remainders follow.
proof fn lemma_acc_step(acc: Seq<bool>, bit: bool)
    ensures
        acc.push(bit).len() == acc.len() + 1,
        bits_val(acc.push(bit)) == 2 * bits_val(acc) + (if bit {
            1nat
        } else {
            0nat
        }),
        ((acc.len() % 0x1_0000_0000) + 1) % 0x1_0000_0000 == (acc.len() + 1) % 0x1_0000_0000,
        (2 * (bits_val(acc) % 0x1_0000_0000) + (if bit {
            1int
        } else {
            0int
        })) % 0x1_0000_0000 == (2 * bits_val(acc) + (if bit {
            1int
        } else {
            0int
        })) % 0x1_0000_0000,
{
    let m: int = 0x1_0000_0000;
    let b: int = if bit {
        1int
    } else {
        0int
    };
    assert(acc.push(bit).drop_last() =~= acc);
    assert(acc.push(bit).last() == bit);
    let l = acc.len() as int;
    let v = bits_val(acc) as int;
    lemma_mul_mod_noop_right(2, v, m);
    lemma_add_mod_noop(2 * v, b, m);
    lemma_small_mod(b as nat, m as nat);
    assert(((2 * v) % m + b % m) % m == (2 * v + b) % m);
    lemma_add_mod_noop(l, 1, m);
    lemma_small_mod(1nat, m as nat);
}

/// Scans a bit literal's body, the opening quote already consumed: `_`
/// collects a zero bit, `@` a one bit, a `"` closes the literal, a `?`
/// fails with `UnsupportedLiteralBit` at its own position and is left
/// unconsumed, and any other character or the end of input closes the
/// literal without being consumed. The token keeps the low 32 bits of the
/// bit count and of the bit string's value, most-significant bit first.
pub fn scan_literal(cur: &mut Cursor) -> (r: Result<TokenKind, ScanError>)
    requires
        old(cur).wf(),
    ensures
        final(cur).wf(),
        match scan_lit_body(old(cur).remaining()) {
            LitScan::Done { n, bits } => {
                &&& final(cur).remaining() == old(cur).remaining().skip(n as int)
                &&& (r matches Ok(k) && k@ == SpecKind::Literal {
                    bitwidth: lit_width(bits),
                    value: lit_value(bits),
                })
            },
            LitScan::Unsupported { n, error } => {
                &&& final(cur).remaining() == old(cur).remaining().skip(n as int)
                &&& r == Err::<TokenKind, ScanError>(error)
            },
        },
{
    let ghost rem0 = cur.remaining();
    let ghost mut j: int = 0;
    let ghost mut acc: Seq<bool> = Seq::empty();
    let mut bitwidth: u32 = 0;
    let mut value: u32 = 0;
    proof {
        lemma_lit_prepend_empty(scan_lit_body(rem0));
        lemma_small_mod(0nat, 0x1_0000_0000nat);
    }
    loop
        invariant
            cur.wf(),
            rem0 == old(cur).remaining(),
            0 <= j <= rem0.len(),
            cur.remaining() == rem0.skip(j),
            scan_lit_body(rem0) == lit_prepend(j as nat, acc, scan_lit_body(cur.remaining())),
            bitwidth as nat == acc.len() % 0x1_0000_0000,
            value as nat == bits_val(acc) % 0x1_0000_0000,
        decreases rem0.len() - j,
    {
        let nxt = cur.peek();
        match nxt {
            Some(ch) => {
                proof {
                    assert(rem0[j] == ch);
                }
                if ch.c == '_' || ch.c == '@' {
                    let one = ch.c == '@';
                    proof {
                        assert(scan_lit_body(cur.remaining()) == lit_step(
                            one,
                            scan_lit_body(cur.remaining().skip(1)),
                        ));
                        lemma_lit_prepend_step(
                            j as nat,
                            acc,
                            one,
                            scan_lit_body(cur.remaining().skip(1)),
                        );
                        lemma_acc_step(acc, one);
                    }
                    bitwidth = bitwidth.wrapping_add(1);
                    value = value.wrapping_mul(2).wrapping_add(
                        if one {
                            1
                        } else {
                            0
                        },
                    );
                    let _ = cur.next();
                    proof {
                        assert(rem0.skip(j).skip(1) =~= rem0.skip(j + 1));
                        j = j + 1;
                        acc = acc.push(one);
                    }
                } else if ch.c == '"' {
                    proof {
                        assert(scan_lit_body(cur.remaining()) == LitScan::Done {
                            n: 1nat,
                            bits: Seq::<bool>::empty(),
                        });
                        assert(acc + Seq::<bool>::empty() =~= acc);
                    }
                    let _ = cur.next();
                    proof {
                        assert(rem0.skip(j).skip(1) =~= rem0.skip(j + 1));
                    }
                    return Ok(TokenKind::Literal { bitwidth, value });
                } else if ch.c == '?' {
                    proof {
                        assert(scan_lit_body(cur.remaining()) == LitScan::Unsupported {
                            n: 0nat,
                            error: ScanError {
                                line_num: ch.line_num,
                                row_num: ch.row_num,
                                kind: ErrorKind::UnsupportedLiteralBit,
                            },
                        });
                    }
                    return Err(
                        ScanError {
                            line_num: ch.line_num,
                            row_num: ch.row_num,
                            kind: ErrorKind::UnsupportedLiteralBit,
                        },
                    );
                } else {
                    proof {
                        assert(scan_lit_body(cur.remaining()) == LitScan::Done {
                            n: 0,
                            bits: Seq::empty(),
                        });
                        assert(acc + Seq::<bool>::empty() =~= acc);
                    }
                    return Ok(TokenKind::Literal { bitwidth, value });
                }
            },
            None => {
                proof {
                    assert(scan_lit_body(cur.remaining()) == LitScan::Done {
                        n: 0,
                        bits: Seq::empty(),
                    });
                    assert(acc + Seq::<bool>::empty() =~= acc);
                }
                return Ok(TokenKind::Literal { bitwidth, value });
            },
        }
    }
}

/// The token for a fixed one-character punctuator other than `/`.
fn punct_token(c: char) -> (r: Option<TokenKind>)
    ensures
        r is Some <==> (is_punct_char(c) && c != '/'),
        r matches Some(k) ==> k@ == SpecKind::Punct(c),
{
    match c {
        ';' => Some(TokenKind::Semi),
        ',' => Some(TokenKind::Comma),
        '.' => Some(TokenKind::Dot),
        '(' => Some(TokenKind::OpenParen),
        ')' => Some(TokenKind::CloseParen),
        '{' => Some(TokenKind::OpenBrace),
        '}' => Some(TokenKind::CloseBrace),
        '[' => Some(TokenKind::OpenBracket),
        ']' => Some(TokenKind::CloseBracket),
        '@' => Some(TokenKind::At),
        '#' => Some(TokenKind::Pound),
        '~' => Some(TokenKind::Tilde),
        '?' => Some(TokenKind::Question),
        ':' => Some(TokenKind::Colon),
        '$' => Some(TokenKind::Dollar),
        '=' => Some(TokenKind::Eq),
        '!' => Some(TokenKind::Bang),
        '<' => Some(TokenKind::Lt),
        '>' => Some(TokenKind::Gt),
        '-' => Some(TokenKind::Minus),
        '&' => Some(TokenKind::And),
        '|' => Some(TokenKind::Or),
        '+' => Some(TokenKind::Plus),
        '*' => Some(TokenKind::Star),
        '^' => Some(TokenKind::Caret),
        '%' => Some(TokenKind::Percent),
        _ => None,
    }
}

/// Produces the next token from the cursor, or reports the end of the
/// input, or fails as `scan_spec` says: the scanner pulls the leading
/// character and dispatches on its class, and the emitted token carries
/// the position of that leading character.
pub fn scan(cur: &mut Cursor) -> (r: Result<Option<Token>, ScanError>)
    requires
        old(cur).wf(),
    ensures
        final(cur).wf(),
        match scan_spec(old(cur).remaining()) {
            SpecStep::End => r == Ok::<Option<Token>, ScanError>(None) && final(cur).remaining()
                == old(cur).remaining(),
            SpecStep::Tok { token, n } => {
                &&& (r matches Ok(ot) && ot matches Some(t) && t@ == token)
                &&& final(cur).remaining() == old(cur).remaining().skip(n as int)
            },
            SpecStep::Fail { error, n } => {
                &&& r == Err::<Option<Token>, ScanError>(error)
                &&& final(cur).remaining() == old(cur).remaining().skip(n as int)
            },
        },
{
    let ghost rem0 = cur.remaining();
    let first = match cur.next() {
        Some(ch) => ch,
        None => {
            return Ok(None);
        },
    };
    let c = first.c;
    let token_kind: TokenKind;
    if is_whitespace(c) {
        let ghost rem1 = cur.remaining();
        let pred = |x: char| -> (b: bool)
            ensures
                b == is_whitespace_char(x),
            { is_whitespace(x) };
        cur.skip(pred);
        proof {
            let n = choose|n: int|
                {
                    &&& 0 <= n <= rem1.len()
                    &&& cur.remaining() == rem1.skip(n)
                    &&& (forall|i: int|
                        0 <= i < n ==> pred.ensures((#[trigger] rem1[i].c,), true))
                    &&& (n < rem1.len() ==> pred.ensures((rem1[n].c,), false))
                };
            assert forall|i: int| 0 <= i < n implies is_whitespace_char(#[trigger] rem1[i].c) by {
                assert(pred.ensures((rem1[i].c,), true));
            }
            lemma_run_len_from_bounds(rem1, ws_pred(), n);
            assert(run_len(rem0, ws_pred()) == 1 + n);
            assert(rem0.skip(1).skip(n) =~= rem0.skip(1 + n));
        }
        token_kind = TokenKind::Whitespace;
    } else if let Some(k) = punct_token(c) {
        token_kind = k;
    } else if c == '/' {
        if cur.consume('/') {
            let ghost rem2 = cur.remaining();
            let pred = |x: char| -> (b: bool)
                ensures
                    b == (x != '\n'),
                { x != '\n' };
            cur.skip(pred);
            proof {
                assert(rem0.skip(1)[0] == rem0[1]);
                assert(rem0.skip(1).skip(1) =~= rem0.skip(2));
                let n = choose|n: int|
                    {
                        &&& 0 <= n <= rem2.len()
                        &&& cur.remaining() == rem2.skip(n)
                        &&& (forall|i: int|
                            0 <= i < n ==> pred.ensures((#[trigger] rem2[i].c,), true))
                        &&& (n < rem2.len() ==> pred.ensures((rem2[n].c,), false))
                    };
                assert forall|i: int| 0 <= i < n implies not_newline_pred()(
                    #[trigger] rem2[i].c,
                ) by {
                    assert(pred.ensures((rem2[i].c,), true));
                }
                lemma_run_len_from_bounds(rem2, not_newline_pred(), n);
                assert(rem0.skip(2).skip(n) =~= rem0.skip(2 + n));
            }
            token_kind = TokenKind::Comment;
        } else {
            token_kind = TokenKind::Slash;
        }
    } else if is_ascii_alpha(c) {
        let k = scan_ident_or_reserved(cur, first);
        proof {
            lemma_run_len_le(rem0.skip(1), ident_cont_pred());
            let rl = run_len(rem0.skip(1), ident_cont_pred()) as int;
            assert(rem0.skip(1).skip(rl) =~= rem0.skip(1 + rl));
        }
        token_kind = k;
    } else if is_ascii_digit(c) {
        let outcome = scan_number(cur, first);
        proof {
            lemma_run_len_le(rem0.skip(1), digit_pred());
            let rl = run_len(rem0.skip(1), digit_pred()) as int;
            assert(rem0.skip(1).skip(rl) =~= rem0.skip(1 + rl));
        }
        match outcome {
            Ok(k) => {
                token_kind = k;
            },
            Err(e) => {
                return Err(e);
            },
        }
    } else if c == '"' {
        let outcome = scan_literal(cur);
        proof {
            lemma_scan_lit_body_bounds(rem0.skip(1));
            match scan_lit_body(rem0.skip(1)) {
                LitScan::Done { n, bits } => {
                    assert(rem0.skip(1).skip(n as int) =~= rem0.skip(1 + n as int));
                },
                LitScan::Unsupported { n, error } => {
                    assert(rem0.skip(1).skip(n as int) =~= rem0.skip(1 + n as int));
                },
            }
        }
        match outcome {
            Ok(k) => {
                token_kind = k;
            },
            Err(e) => {
                return Err(e);
            },
        }
    } else {
        return Err(
            ScanError {
                line_num: first.line_num,
                row_num: first.row_num,
                kind: ErrorKind::UnrecognizedCharacter,
            },
        );
    }
    Ok(Some(Token { line_num: first.line_num, row_num: first.row_num, token_kind }))
}

/// The views of a produced token sequence.
pub open spec fn views_of(toks: Seq<Token>) -> Seq<SpecToken> {
    toks.map_values(|t: Token| t@)
}

proof fn lemma_tokens_prepend_empty(r: Result<Seq<SpecToken>, ScanError>)
    ensures
        tokens_prepend(Seq::empty(), r) == r,
{
    match r {
        Ok(toks) => {
            assert(Seq::empty() + toks =~= toks);
        },
        Err(e) => {
        },
    }
}

proof fn lemma_tokens_prepend_push(
    acc: Seq<SpecToken>,
    t: SpecToken,
    r: Result<Seq<SpecToken>, ScanError>,
)
    ensures
        tokens_prepend(acc, tokens_prepend(seq![t], r)) == tokens_prepend(acc.push(t), r),
{
    match r {
        Ok(toks) => {
            assert(acc + (seq![t] + toks) =~= acc.push(t) + toks);
        },
        Err(e) => {
        },
    }
}

/// Scans a whole source text: expands it into a cursor and produces the
/// tokens in source order, stopping at the first scan error.
pub fn tokenize(source: String) -> (r: Result<Vec<Token>, ScanError>)
    requires
        source@.len() < usize::MAX,
    ensures
        match tokens_spec(expansion(source@)) {
            Ok(toks) => r matches Ok(v) && views_of(v@) == toks,
            Err(e) => r == Err::<Vec<Token>, ScanError>(e),
        },
{
    let ghost src = source@;
    let mut cur = crate::cursor::cursor(source);
    let mut toks: Vec<Token> = Vec::new();
    proof {
        assert(views_of(toks@) =~= Seq::<SpecToken>::empty());
        lemma_tokens_prepend_empty(tokens_spec(expansion(src)));
    }
    loop
        invariant
            cur.wf(),
            src == source@,
            tokens_spec(expansion(src)) == tokens_prepend(
                views_of(toks@),
                tokens_spec(cur.remaining()),
            ),
        decreases cur.remaining().len(),
    {
        let ghost rem = cur.remaining();
        let step = scan(&mut cur);
        proof {
            lemma_scan_spec_bounds(rem);
        }
        match step {
            Ok(Some(t)) => {
                proof {
                    match scan_spec(rem) {
                        SpecStep::Tok { token, n } => {
                            lemma_tokens_prepend_push(views_of(toks@), t@, tokens_spec(rem.skip(n as int)));
                            assert(views_of(toks@.push(t)) =~= views_of(toks@).push(t@));
                        },
                        _ => {
                        },
                    }
                }
                toks.push(t);
            },
            Ok(None) => {
                proof {
                    assert(views_of(toks@) + Seq::<SpecToken>::empty() =~= views_of(toks@));
                }
                return Ok(toks);
            },
            Err(e) => {
                return Err(e);
            },
        }
    }
}

} // verus!
