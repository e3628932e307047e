//! The position-tracking character cursor: a forward-only, single-pass
//! reader over the source text expanded into positioned characters.

use vstd::prelude::*;
use vstd::string::StrSliceExecFns;

use crate::token::Char;

verus! {

/// The expansion of the source text from the given line/column state on.
///
/// Lines are split at `\n` or `\r\n`; the terminator is replaced by a single
/// synthetic `\n` character standing at the column right after the line's
/// last character, and column numbering restarts at 1 on the next line. A
/// source that ends mid-line still gets one synthetic `\n`, so every line
/// ends with an explicit terminator. A `\r` not followed by `\n` is an
/// ordinary character of its line.
pub open spec fn expand_from(src: Seq<char>, line: int, col: int) -> Seq<Char>
    decreases src.len(),
{
    if src.len() == 0 {
        if col == 1 {
            Seq::empty()
        } else {
            seq![Char { line_num: line as usize, row_num: col as usize, c: '\n' }]
        }
    } else if src[0] == '\n' {
        seq![Char { line_num: line as usize, row_num: col as usize, c: '\n' }] + expand_from(
            src.skip(1),
            line + 1,
            1,
        )
    } else if src[0] == '\r' && src.len() >= 2 && src[1] == '\n' {
        seq![Char { line_num: line as usize, row_num: col as usize, c: '\n' }] + expand_from(
            src.skip(2),
            line + 1,
            1,
        )
    } else {
        seq![Char { line_num: line as usize, row_num: col as usize, c: src[0] }] + expand_from(
            src.skip(1),
            line,
            col + 1,
        )
    }
}

/// The positioned-character sequence that a cursor over the given source
/// text presents, starting at line 1, column 1.
pub open spec fn expansion(src: Seq<char>) -> Seq<Char> {
    expand_from(src, 1, 1)
}

/// The stateful, single-pass reader over position-tagged source characters.
/// It is consumed forward only and is not restartable.
pub struct Cursor {
    chars: Vec<Char>,
    pos: usize,
}

impl Cursor {
    /// The cursor's internal position never runs past its character store.
    pub closed spec fn wf(&self) -> bool {
        self.pos <= self.chars@.len()
    }

    /// The positioned characters not yet consumed, in order.
    pub closed spec fn remaining(&self) -> Seq<Char> {
        self.chars@.skip(self.pos as int)
    }

    /// Returns and consumes the next character, or reports exhaustion.
    pub fn next(&mut self) -> (r: Option<Char>)
        requires
            old(self).wf(),
        ensures
            final(self).wf(),
            old(self).remaining().len() == 0 ==> r is None && final(self).remaining()
                == old(self).remaining(),
            old(self).remaining().len() > 0 ==> r == Some(old(self).remaining()[0])
                && final(self).remaining() == old(self).remaining().skip(1),
    {
        if self.pos < self.chars.len() {
            let ch = self.chars[self.pos];
            self.pos = self.pos + 1;
            Some(ch)
        } else {
            None
        }
    }

    /// Reports the next character without consuming it.
    pub(crate) fn peek(&self) -> (r: Option<Char>)
        requires
            self.wf(),
        ensures
            self.remaining().len() == 0 ==> r is None,
            self.remaining().len() > 0 ==> r == Some(self.remaining()[0]),
    {
        if self.pos < self.chars.len() {
            Some(self.chars[self.pos])
        } else {
            None
        }
    }

    /// If the next character equals `c`, consumes it and returns true;
    /// otherwise leaves the cursor untouched and returns false.
    pub fn consume(&mut self, c: char) -> (r: bool)
        requires
            old(self).wf(),
        ensures
            final(self).wf(),
            r == (old(self).remaining().len() > 0 && old(self).remaining()[0].c == c),
            r ==> final(self).remaining() == old(self).remaining().skip(1),
            !r ==> final(self).remaining() == old(self).remaining(),
    {
        match self.peek() {
            Some(ch) => {
                if ch.c == c {
                    let _ = self.next();
                    true
                } else {
                    false
                }
            },
            None => false,
        }
    }

    /// Consumes characters while `predicate` accepts them and stops, without
    /// consuming, at the first rejected character or at exhaustion. The
    /// consumed prefix consists exactly of characters the predicate accepted.
    pub fn skip<F: Fn(char) -> bool>(&mut self, predicate: F)
        requires
            old(self).wf(),
            forall|c: char| #[trigger] predicate.requires((c,)),
        ensures
            final(self).wf(),
            exists|n: int|
                {
                    &&& 0 <= n <= old(self).remaining().len()
                    &&& final(self).remaining() == old(self).remaining().skip(n)
                    &&& (forall|i: int|
                        0 <= i < n ==> predicate.ensures(
                            (#[trigger] old(self).remaining()[i].c,),
                            true,
                        ))
                    &&& (n < old(self).remaining().len() ==> predicate.ensures(
                        (old(self).remaining()[n].c,),
                        false,
                    ))
                },
    {
        let ghost mut n: int = 0;
        loop
            invariant
                self.wf(),
                forall|c: char| #[trigger] predicate.requires((c,)),
                0 <= n <= old(self).remaining().len(),
                self.remaining() == old(self).remaining().skip(n),
                forall|i: int|
                    0 <= i < n ==> predicate.ensures((#[trigger] old(self).remaining()[i].c,), true),
            ensures
                0 <= n <= old(self).remaining().len(),
                self.remaining() == old(self).remaining().skip(n),
                forall|i: int|
                    0 <= i < n ==> predicate.ensures((#[trigger] old(self).remaining()[i].c,), true),
                n < old(self).remaining().len() ==> predicate.ensures(
                    (old(self).remaining()[n].c,),
                    false,
                ),
            decreases self.remaining().len(),
        {
            match self.peek() {
                Some(ch) => {
                    proof {
                        assert(old(self).remaining()[n] == ch);
                    }
                    if predicate(ch.c) {
                        let _ = self.next();
                        proof {
                            assert(old(self).remaining().skip(n).skip(1) =~= old(
                                self,
                            ).remaining().skip(n + 1));
                            n = n + 1;
                        }
                    } else {
                        break ;
                    }
                },
                None => {
                    break ;
                },
            }
        }
    }
}

/// Expands the source text into positioned characters and wraps them in a
/// fresh cursor standing at the first one. The character count must leave
/// room for one more column index in a machine word, so that every
/// position fits a `usize`.
pub fn cursor(source: String) -> (cur: Cursor)
    requires
        source@.len() < usize::MAX,
    ensures
        cur.wf(),
        cur.remaining() == expansion(source@),
{
    let s = source.as_str();
    let n = s.unicode_len();
    let mut chars: Vec<Char> = Vec::new();
    let mut i: usize = 0;
    let mut line: usize = 1;
    let mut col: usize = 1;
    proof {
        assert(source@.skip(0) =~= source@);
        assert(chars@ + expand_from(source@, 1, 1) =~= expand_from(source@, 1, 1));
    }
    while i < n
        invariant
            n == source@.len(),
            n < usize::MAX,
            s@ == source@,
            0 <= i <= n,
            1 <= line <= i + 1,
            1 <= col <= i + 1,
            expansion(source@) == chars@ + expand_from(source@.skip(i as int), line as int, col as int),
        decreases n - i,
    {
        let c = s.get_char(i);
        proof {
            assert(source@.skip(i as int)[0] == c);
        }
        if c == '\n' {
            chars.push(Char { line_num: line, row_num: col, c: '\n' });
            proof {
                assert(source@.skip(i as int).skip(1) =~= source@.skip(i + 1));
            }
            line = line + 1;
            col = 1;
            i = i + 1;
        } else {
            let is_crlf = if c == '\r' && i + 1 < n {
                let c2 = s.get_char(i + 1);
                proof {
                    assert(source@.skip(i as int)[1] == c2);
                }
                c2 == '\n'
            } else {
                false
            };
            if is_crlf {
                chars.push(Char { line_num: line, row_num: col, c: '\n' });
                proof {
                    assert(source@.skip(i as int).skip(2) =~= source@.skip(i + 2));
                }
                line = line + 1;
                col = 1;
                i = i + 2;
            } else {
                proof {
                    assert(source@.skip(i as int).skip(1) =~= source@.skip(i + 1));
                }
                chars.push(Char { line_num: line, row_num: col, c });
                col = col + 1;
                i = i + 1;
            }
        }
    }
    proof {
        assert(source@.skip(n as int) =~= Seq::<char>::empty());
    }
    if col > 1 {
        chars.push(Char { line_num: line, row_num: col, c: '\n' });
    }
    proof {
        assert(chars@ =~= expansion(source@));
    }
    Cursor { chars, pos: 0 }
}

} // verus!
