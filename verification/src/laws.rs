//! General properties of the lexer, stated over the mathematical model
//! and proved once for every input.

use vstd::prelude::*;

use crate::cursor::expand_from;
use crate::cursor::expansion;
use crate::scan::ident_kind;
use crate::scan::is_whitespace_char;
use crate::scan::lemma_run_len_from_bounds;
use crate::scan::reserved_of;
use crate::scan::scan_spec;
use crate::scan::tokens_prepend;
use crate::scan::tokens_spec;
use crate::scan::SpecStep;
use crate::scan::ws_pred;
use crate::token::Char;
use crate::token::ReservedKind;
use crate::token::ScanError;
use crate::token::SpecKind;
use crate::token::SpecToken;

verus! {

/// Expanding a source of whitespace characters only yields whitespace
/// characters only: the synthetic line terminators are whitespace as well.
proof fn lemma_expand_from_ws(src: Seq<char>, line: int, col: int)
    requires
        forall|i: int| 0 <= i < src.len() ==> is_whitespace_char(#[trigger] src[i]),
    ensures
        forall|i: int|
            0 <= i < expand_from(src, line, col).len() ==> is_whitespace_char(
                #[trigger] expand_from(src, line, col)[i].c,
            ),
    decreases src.len(),
{
    let e = expand_from(src, line, col);
    if src.len() == 0 {
    } else {
        let skip: int = if src[0] == '\r' && src.len() >= 2 && src[1] == '\n' {
            2
        } else {
            1
        };
        let line2: int = if src[0] == '\n' || skip == 2 {
            line + 1
        } else {
            line
        };
        let col2: int = if src[0] == '\n' || skip == 2 {
            1
        } else {
            col + 1
        };
        assert forall|i: int| 0 <= i < src.skip(skip).len() implies is_whitespace_char(
            #[trigger] src.skip(skip)[i],
        ) by {
            assert(src.skip(skip)[i] == src[i + skip]);
        }
        lemma_expand_from_ws(src.skip(skip), line2, col2);
        let t = expand_from(src.skip(skip), line2, col2);
        assert forall|i: int| 0 <= i < e.len() implies is_whitespace_char(#[trigger] e[i].c) by {
            if i == 0 {
                assert(is_whitespace_char(src[0]));
            } else {
                assert(e[i] == t[i - 1]);
            }
        }
    }
}

/// A source consisting solely of whitespace characters scans to exactly
/// one `Whitespace` token standing at line 1, column 1, followed by the
/// end of the input.
pub proof fn lemma_whitespace_only_input(src: Seq<char>)
    requires
        src.len() > 0,
        forall|i: int| 0 <= i < src.len() ==> is_whitespace_char(#[trigger] src[i]),
    ensures
        tokens_spec(expansion(src)) == Ok::<Seq<SpecToken>, ScanError>(
            seq![SpecToken { line: 1, col: 1, kind: SpecKind::Whitespace }],
        ),
{
    let e = expansion(src);
    lemma_expand_from_ws(src, 1, 1);
    assert(e.len() > 0);
    assert(e[0].line_num == 1 && e[0].row_num == 1);
    assert(is_whitespace_char(e[0].c));
    lemma_run_len_from_bounds(e, ws_pred(), e.len() as int);
    assert(e.skip(e.len() as int) =~= Seq::<Char>::empty());
    let tok = SpecToken { line: 1, col: 1, kind: SpecKind::Whitespace };
    assert(scan_spec(e) == SpecStep::Tok { token: tok, n: e.len() });
    assert(tokens_spec(Seq::<Char>::empty()) == Ok::<Seq<SpecToken>, ScanError>(Seq::empty()));
    assert(tokens_spec(e) == tokens_prepend(seq![tok], tokens_spec(e.skip(e.len() as int))));
    assert(seq![tok] + Seq::<SpecToken>::empty() =~= seq![tok]);
}

/// An exact match of a reserved keyword always wins over the identifier
/// classification; any other word, `type2` for one, stays an identifier.
pub proof fn lemma_reserved_precedence(word: Seq<char>)
    ensures
        word == seq!['t', 'y', 'p', 'e'] ==> ident_kind(word) == SpecKind::Reserved(
            ReservedKind::Type,
        ),
        word == seq!['e', 'n', 'u', 'm'] ==> ident_kind(word) == SpecKind::Reserved(
            ReservedKind::Enum,
        ),
        word == seq!['l', 'o', 'g', 'i', 'c'] ==> ident_kind(word) == SpecKind::Reserved(
            ReservedKind::Logic,
        ),
        reserved_of(word) is None ==> ident_kind(word) == SpecKind::Ident(word),
        reserved_of(word) is Some <==> (word == seq!['t', 'y', 'p', 'e'] || word == seq![
            'e',
            'n',
            'u',
            'm',
        ] || word == seq!['l', 'o', 'g', 'i', 'c']),
{
}

} // verus!
