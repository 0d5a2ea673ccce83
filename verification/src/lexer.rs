//! Master-file lexer: a single pass over zone text producing lexical tokens.
//!
//! `;` starts a comment running to end of line; parentheses group a record
//! over several lines (newlines inside a group do not end the record line);
//! leading whitespace on a line is significant (the previous owner name
//! applies) and is reported as a `Blank` token. Escapes inside quoted
//! strings are collapsed here; bare character-data keeps its backslash
//! sequences for the field parsers, which must still tell an escaped dot
//! from a structural one inside a domain-name label.

use vstd::prelude::*;

use crate::error::ParseError;

verus! {

/// A lexical unit of zone text.
#[derive(Debug, PartialEq, Eq)]
pub enum Token {
    /// Whitespace at the very start of a record line.
    Blank,
    /// A bare word, escape sequences preserved.
    CharData(Vec<u8>),
    /// A quoted string, quotes removed and escapes collapsed.
    Quote(Vec<u8>),
    /// End of a record line.
    EOL,
}

/// The value of a token.
#[verifier::ext_equal]
pub enum TokenV {
    Blank,
    CharData(Seq<u8>),
    Quote(Seq<u8>),
    EOL,
}

impl View for Token {
    type V = TokenV;

    open spec fn view(&self) -> TokenV {
        match self {
            Token::Blank => TokenV::Blank,
            Token::CharData(s) => TokenV::CharData(s@),
            Token::Quote(s) => TokenV::Quote(s@),
            Token::EOL => TokenV::EOL,
        }
    }
}

/// The token values held by a token vector.
pub open spec fn tokens_view(v: Vec<Token>) -> Seq<TokenV> {
    v@.map_values(|t: Token| t@)
}

/// The bytes carried by a data token value.
pub open spec fn tokv_bytes(t: TokenV) -> Option<Seq<u8>> {
    match t {
        TokenV::CharData(s) => Some(s),
        TokenV::Quote(s) => Some(s),
        _ => None,
    }
}

/// A token the lexer may produce: bare words are never empty.
pub open spec fn token_wf(t: Token) -> bool {
    match t {
        Token::CharData(s) => s@.len() >= 1,
        _ => true,
    }
}


/// A byte that ends a bare word.
pub open spec fn is_delimiter(b: u8) -> bool {
    b == 32 || b == 9 || b == 10 || b == 13 || b == 59 || b == 40 || b == 41 || b == 34
}

/// One bare word off the head of `s`: its bytes (escape sequences kept for
/// the field parsers) and how many input bytes it spans; `None` on a
/// dangling escape.
pub open spec fn take_word(s: Seq<u8>) -> Option<(Seq<u8>, int)>
    decreases s.len(),
{
    if s.len() == 0 {
        Some((Seq::empty(), 0))
    } else if is_delimiter(s[0]) {
        Some((Seq::empty(), 0))
    } else if s[0] == 92 {
        if s.len() < 2 {
            None
        } else {
            match take_word(s.skip(2)) {
                Some(p) => Some((seq![92u8, s[1]] + p.0, 2 + p.1)),
                None => None,
            }
        }
    } else {
        match take_word(s.skip(1)) {
            Some(p) => Some((seq![s[0]] + p.0, 1 + p.1)),
            None => None,
        }
    }
}

/// One quoted string off the head of `s`, the opening quote already
/// consumed: the collapsed bytes and the input bytes spanned, closing quote
/// included; `None` when unterminated or on a bad escape.
pub open spec fn take_quoted(s: Seq<u8>) -> Option<(Seq<u8>, int)>
    decreases s.len(),
{
    if s.len() == 0 {
        None
    } else if s[0] == 34 {
        Some((Seq::empty(), 1))
    } else if s[0] == 92 {
        if s.len() < 2 {
            None
        } else if 48 <= s[1] <= 57 {
            if s.len() < 4 {
                None
            } else if !(48 <= s[2] <= 57 && 48 <= s[3] <= 57) {
                None
            } else if (s[1] - 48) * 100 + (s[2] - 48) * 10 + (s[3] - 48) > 255 {
                None
            } else {
                match take_quoted(s.skip(4)) {
                    Some(p) => Some(
                        (
                            seq![(((s[1] - 48) * 100 + (s[2] - 48) * 10 + (s[3] - 48)) as u8)]
                                + p.0,
                            4 + p.1,
                        ),
                    ),
                    None => None,
                }
            }
        } else {
            match take_quoted(s.skip(2)) {
                Some(p) => Some((seq![s[1]] + p.0, 2 + p.1)),
                None => None,
            }
        }
    } else {
        match take_quoted(s.skip(1)) {
            Some(p) => Some((seq![s[0]] + p.0, 1 + p.1)),
            None => None,
        }
    }
}

pub proof fn lemma_take_word_span(s: Seq<u8>)
    ensures
        take_word(s) matches Some(p) ==> 0 <= p.1 <= s.len(),
    decreases s.len(),
{
    if s.len() > 0 && !is_delimiter(s[0]) {
        if s[0] == 92 {
            if s.len() >= 2 {
                lemma_take_word_span(s.skip(2));
            }
        } else {
            lemma_take_word_span(s.skip(1));
        }
    }
}

pub proof fn lemma_take_quoted_span(s: Seq<u8>)
    ensures
        take_quoted(s) matches Some(p) ==> 1 <= p.1 <= s.len(),
    decreases s.len(),
{
    if s.len() > 0 && s[0] != 34 {
        if s[0] == 92 {
            if s.len() >= 2 && 48 <= s[1] <= 57 {
                if s.len() >= 4 {
                    lemma_take_quoted_span(s.skip(4));
                }
            } else if s.len() >= 2 {
                lemma_take_quoted_span(s.skip(2));
            }
        } else {
            lemma_take_quoted_span(s.skip(1));
        }
    }
}

/// The tokenization of zone text from a lexer state: the open-group depth
/// and whether the cursor stands at the start of a line. `None` is a lex
/// failure: an unbalanced parenthesis, an unterminated quote, or a bad
/// escape.
pub open spec fn spec_lex_at(s: Seq<u8>, depth: int, line_start: bool) -> Option<Seq<TokenV>>
    decreases s.len(),
{
    if s.len() == 0 {
        if depth == 0 {
            Some(Seq::empty())
        } else {
            None
        }
    } else if s[0] == 10 {
        if depth == 0 {
            match spec_lex_at(s.skip(1), depth, true) {
                Some(ts) => Some(seq![TokenV::EOL] + ts),
                None => None,
            }
        } else {
            spec_lex_at(s.skip(1), depth, line_start)
        }
    } else if s[0] == 32 || s[0] == 9 || s[0] == 13 {
        if line_start && depth == 0 {
            match spec_lex_at(s.skip(1), depth, false) {
                Some(ts) => Some(seq![TokenV::Blank] + ts),
                None => None,
            }
        } else {
            spec_lex_at(s.skip(1), depth, line_start)
        }
    } else if s[0] == 59 {
        match crate::text::find_sep(s, 10) {
            None => if depth == 0 {
                Some(Seq::empty())
            } else {
                None
            },
            Some(j) => if 1 <= j <= s.len() {
                spec_lex_at(s.skip(j), depth, false)
            } else {
                None
            },
        }
    } else if s[0] == 40 {
        spec_lex_at(s.skip(1), depth + 1, false)
    } else if s[0] == 41 {
        if depth == 0 {
            None
        } else {
            spec_lex_at(s.skip(1), depth - 1, false)
        }
    } else if s[0] == 34 {
        match take_quoted(s.skip(1)) {
            Some(p) => if 1 <= p.1 <= s.len() - 1 {
                match spec_lex_at(s.skip(1 + p.1), depth, false) {
                    Some(ts) => Some(seq![TokenV::Quote(p.0)] + ts),
                    None => None,
                }
            } else {
                None
            },
            None => None,
        }
    } else {
        match take_word(s) {
            Some(p) => if 1 <= p.1 <= s.len() {
                match spec_lex_at(s.skip(p.1), depth, false) {
                    Some(ts) => Some(seq![TokenV::CharData(p.0)] + ts),
                    None => None,
                }
            } else {
                None
            },
            None => None,
        }
    }
}

/// The tokenization of a whole zone text.
pub open spec fn spec_lex(s: Seq<u8>) -> Option<Seq<TokenV>> {
    spec_lex_at(s, 0, true)
}

/// Tokenize a whole zone text: exactly the `spec_lex` tokenization. Fails
/// on an unterminated quote, an unbalanced parenthesis, or a bad escape; it
/// never panics.
#[verifier::rlimit(100)]
pub fn lex(input: &Vec<u8>) -> (r: Result<Vec<Token>, ParseError>)
    ensures
        r is Ok <==> spec_lex(input@) is Some,
        r matches Ok(ts) ==> Some(tokens_view(ts)) == spec_lex(input@),
        r matches Ok(ts) ==> forall|k: int| 0 <= k < ts@.len() ==> token_wf(#[trigger] ts@[k]),
{
    let ghost whole = spec_lex(input@);
    let mut tokens: Vec<Token> = Vec::new();
    let mut depth: usize = 0;
    let mut line_start: bool = true;
    let mut i: usize = 0;
    proof {
        assert(input@.skip(0) =~= input@);
        assert(tokens_view(tokens) =~= Seq::<TokenV>::empty());
        match spec_lex_at(input@, 0, true) {
            Some(ts) => {
                assert(tokens_view(tokens) + ts =~= ts);
            },
            _ => {},
        }
    }
    while i < input.len()
        invariant
            i <= input.len(),
            depth <= i,
            whole == spec_lex(input@),
            forall|k: int| 0 <= k < tokens@.len() ==> token_wf(#[trigger] tokens@[k]),
            match spec_lex_at(input@.skip(i as int), depth as int, line_start) {
                Some(ts) => whole == Some(tokens_view(tokens) + ts),
                None => whole is None,
            },
        decreases input.len() - i,
    {
        let ghost here = input@.skip(i as int);
        let ghost d0 = depth as int;
        let ghost ls0 = line_start;
        let ghost tv0 = tokens_view(tokens);
        let b = input[i];
        proof {
            assert(here[0] == b);
        }
        if b == 10 {
            // newline ends the record line, unless a group is open
            if depth == 0 {
                tokens.push(Token::EOL);
                line_start = true;
                proof {
                    assert(tokens_view(tokens) =~= tv0.push(TokenV::EOL));
                }
            }
            i = i + 1;
            proof {
                assert(here.skip(1) =~= input@.skip(i as int));
                if d0 == 0 {
                    match spec_lex_at(input@.skip(i as int), d0, true) {
                        Some(ts) => {
                            assert(tv0 + (seq![TokenV::EOL] + ts) =~= tokens_view(tokens) + ts);
                        },
                        _ => {},
                    }
                }
            }
        } else if b == 32 || b == 9 || b == 13 {
            if line_start && depth == 0 {
                tokens.push(Token::Blank);
                line_start = false;
                proof {
                    assert(tokens_view(tokens) =~= tv0.push(TokenV::Blank));
                }
            }
            i = i + 1;
            proof {
                assert(here.skip(1) =~= input@.skip(i as int));
                if ls0 && d0 == 0 {
                    match spec_lex_at(input@.skip(i as int), d0, false) {
                        Some(ts) => {
                            assert(tv0 + (seq![TokenV::Blank] + ts) =~= tokens_view(tokens)
                                + ts);
                        },
                        _ => {},
                    }
                }
            }
        } else if b == 59 {
            // comment to end of line
            line_start = false;
            let ghost i0 = i;
            while i < input.len() && input[i] != 10
                invariant
                    i0 <= i <= input.len(),
                    i0 < input@.len() && input@[i0 as int] == 59,
                    forall|j: int| i0 <= j < i ==> input@[j] != 10,
                decreases input.len() - i,
            {
                i = i + 1;
            }
            proof {
                assert(i > i0);
                let com = input@.skip(i0 as int);
                if i == input@.len() {
                    assert(forall|j: int| 0 <= j < com.len() ==> com[j] != 10);
                    crate::text::lemma_find_sep_none(com, 10);
                    assert(input@.skip(i as int) =~= Seq::<u8>::empty());
                } else {
                    assert(forall|j: int| 0 <= j < i - i0 ==> com[j] != 10);
                    assert(com[i - i0 as int] == 10);
                    crate::text::lemma_find_sep_at(com, 10, i - i0 as int);
                    assert(com.skip(i - i0 as int) =~= input@.skip(i as int));
                }
            }
        } else if b == 40 {
            line_start = false;
            proof {
                assert(depth < usize::MAX);
            }
            if depth == usize::MAX {
                proof {
                    assert(false);
                }
                return Err(ParseError::InvalidText);
            }
            depth = depth + 1;
            i = i + 1;
            proof {
                assert(here.skip(1) =~= input@.skip(i as int));
            }
        } else if b == 41 {
            line_start = false;
            if depth == 0 {
                return Err(ParseError::InvalidText);
            }
            depth = depth - 1;
            i = i + 1;
            proof {
                assert(here.skip(1) =~= input@.skip(i as int));
            }
        } else if b == 34 {
            // quoted string: escapes collapsed, closing quote required
            line_start = false;
            let ghost qpos = i;
            i = i + 1;
            let ghost q0 = i;
            let mut s: Vec<u8> = Vec::new();
            let mut closed = false;
            proof {
                assert(input@.skip(q0 as int).skip(0) =~= input@.skip(q0 as int));
                assert(s@ =~= Seq::<u8>::empty());
            }
            while i < input.len() && !closed
                invariant
                    q0 <= i <= input.len(),
                    whole == spec_lex(input@),
                    qpos + 1 == q0,
                    0 <= qpos < input@.len() && input@[qpos as int] == 34,
                    depth <= qpos,
                    forall|k: int| 0 <= k < tokens@.len() ==> token_wf(#[trigger] tokens@[k]),
                    match spec_lex_at(input@.skip(qpos as int), depth as int, ls0) {
                        Some(ts) => whole == Some(tokens_view(tokens) + ts),
                        None => whole is None,
                    },
                    closed ==> take_quoted(input@.skip(q0 as int)) == Some(
                        (s@, i - q0 as int),
                    ),
                    !closed ==> (match take_quoted(input@.skip(i as int)) {
                        Some(p) => take_quoted(input@.skip(q0 as int)) == Some(
                            (s@ + p.0, i - q0 + p.1),
                        ),
                        None => take_quoted(input@.skip(q0 as int)) is None,
                    }),
                decreases input.len() - i,
            {
                let ghost qh = input@.skip(i as int);
                let c = input[i];
                proof {
                    assert(qh[0] == c);
                }
                if c == 34 {
                    proof {
                        assert(take_quoted(qh) == Some((Seq::<u8>::empty(), 1int)));
                        assert(s@ + Seq::<u8>::empty() =~= s@);
                    }
                    i = i + 1;
                    closed = true;
                } else if c == 92 {
                    if input.len() - i <= 1 {
                        proof {
                            assert(qh.len() < 2);
                            assert(take_quoted(qh) is None);
                            assert(input@.skip(qpos as int)[0] == 34);
                            assert(input@.skip(qpos as int).skip(1) =~= input@.skip(
                                q0 as int,
                            ));
                            assert(spec_lex_at(input@.skip(qpos as int), depth as int, ls0)
                                is None);
                        }
                        return Err(ParseError::InvalidText);
                    }
                    let c2 = input[i + 1];
                    proof {
                        assert(qh[1] == c2);
                    }
                    if 48 <= c2 && c2 <= 57 {
                        if input.len() - i <= 3 {
                            proof {
                                assert(qh.len() < 4);
                                assert(take_quoted(qh) is None);
                            assert(input@.skip(qpos as int)[0] == 34);
                            assert(input@.skip(qpos as int).skip(1) =~= input@.skip(
                                q0 as int,
                            ));
                            assert(spec_lex_at(input@.skip(qpos as int), depth as int, ls0)
                                is None);
                            }
                            return Err(ParseError::InvalidText);
                        }
                        let c3 = input[i + 2];
                        let c4 = input[i + 3];
                        proof {
                            assert(qh[2] == c3 && qh[3] == c4);
                        }
                        if !(48 <= c3 && c3 <= 57 && 48 <= c4 && c4 <= 57) {
                            proof {
                                assert(take_quoted(qh) is None);
                            assert(input@.skip(qpos as int)[0] == 34);
                            assert(input@.skip(qpos as int).skip(1) =~= input@.skip(
                                q0 as int,
                            ));
                            assert(spec_lex_at(input@.skip(qpos as int), depth as int, ls0)
                                is None);
                            }
                            return Err(ParseError::InvalidText);
                        }
                        let v: u32 = (c2 - 48) as u32 * 100 + (c3 - 48) as u32 * 10 + (c4
                            - 48) as u32;
                        if v > 255 {
                            proof {
                                assert(take_quoted(qh) is None);
                            assert(input@.skip(qpos as int)[0] == 34);
                            assert(input@.skip(qpos as int).skip(1) =~= input@.skip(
                                q0 as int,
                            ));
                            assert(spec_lex_at(input@.skip(qpos as int), depth as int, ls0)
                                is None);
                            }
                            return Err(ParseError::InvalidText);
                        }
                        let ghost sv0 = s@;
                        s.push(v as u8);
                        i = i + 4;
                        proof {
                            assert(qh.skip(4) =~= input@.skip(i as int));
                            match take_quoted(input@.skip(i as int)) {
                                Some(p) => {
                                    assert(sv0 + (seq![(v as u8)] + p.0) =~= s@ + p.0);
                                },
                                _ => {},
                            }
                        }
                    } else {
                        let ghost sv0 = s@;
                        s.push(c2);
                        i = i + 2;
                        proof {
                            assert(qh.skip(2) =~= input@.skip(i as int));
                            match take_quoted(input@.skip(i as int)) {
                                Some(p) => {
                                    assert(sv0 + (seq![c2] + p.0) =~= s@ + p.0);
                                },
                                _ => {},
                            }
                        }
                    }
                } else {
                    let ghost sv0 = s@;
                    s.push(c);
                    i = i + 1;
                    proof {
                        assert(qh.skip(1) =~= input@.skip(i as int));
                        match take_quoted(input@.skip(i as int)) {
                            Some(p) => {
                                assert(sv0 + (seq![c] + p.0) =~= s@ + p.0);
                            },
                            _ => {},
                        }
                    }
                }
            }
            if !closed {
                proof {
                    assert(i == input@.len());
                    assert(input@.skip(i as int) =~= Seq::<u8>::empty());
                    assert(take_quoted(Seq::<u8>::empty()) is None);
                    assert(take_quoted(input@.skip(q0 as int)) is None);
                            assert(input@.skip(qpos as int)[0] == 34);
                            assert(input@.skip(qpos as int).skip(1) =~= input@.skip(
                                q0 as int,
                            ));
                            assert(spec_lex_at(input@.skip(qpos as int), depth as int, ls0)
                                is None);
                }
                return Err(ParseError::InvalidText);
            }
            proof {
                assert(take_quoted(input@.skip(q0 as int)) == Some((s@, i - q0 as int)));
                assert(input@.skip(qpos as int).skip(1) =~= input@.skip(q0 as int));
                assert(input@.skip(qpos as int)[0] == 34);
                lemma_take_quoted_span(input@.skip(q0 as int));
                assert(input@.skip(qpos as int).skip(1 + (i - q0)) =~= input@.skip(i as int));
            }
            let ghost tv1 = tokens_view(tokens);
            tokens.push(Token::Quote(s));
            proof {
                assert(tokens_view(tokens) =~= tv1.push(TokenV::Quote(
                    input@.skip(q0 as int).subrange(0, 0) + s@,
                )));
                assert(input@.skip(q0 as int).subrange(0, 0) + s@ =~= s@);
                match spec_lex_at(input@.skip(i as int), depth as int, false) {
                    Some(ts) => {
                        assert(tv1 + (seq![TokenV::Quote(s@)] + ts) =~= tokens_view(tokens)
                            + ts);
                    },
                    _ => {},
                }
            }
        } else {
            // bare character data, up to the next delimiter
            line_start = false;
            let mut s: Vec<u8> = Vec::new();
            let mut stopped = false;
            let ghost w0 = i;
            proof {
                assert(!is_delimiter(b));
                assert(s@ =~= Seq::<u8>::empty());
            }
            while i < input.len() && !stopped
                invariant
                    w0 <= i <= input.len(),
                    whole == spec_lex(input@),
                    0 <= w0 < input@.len() && !is_delimiter(input@[w0 as int]),
                    depth <= w0,
                    forall|k: int| 0 <= k < tokens@.len() ==> token_wf(#[trigger] tokens@[k]),
                    match spec_lex_at(input@.skip(w0 as int), depth as int, ls0) {
                        Some(ts) => whole == Some(tokens_view(tokens) + ts),
                        None => whole is None,
                    },
                    stopped ==> take_word(input@.skip(w0 as int)) == Some(
                        (s@, i - w0 as int),
                    ),
                    !stopped ==> (match take_word(input@.skip(i as int)) {
                        Some(p) => take_word(input@.skip(w0 as int)) == Some(
                            (s@ + p.0, i - w0 + p.1),
                        ),
                        None => take_word(input@.skip(w0 as int)) is None,
                    }),
                decreases input.len() - i, (if stopped {
                    0int
                } else {
                    1int
                }),
            {
                let ghost wh = input@.skip(i as int);
                let c = input[i];
                proof {
                    assert(wh[0] == c);
                }
                if c == 32 || c == 9 || c == 10 || c == 13 || c == 59 || c == 40 || c == 41 || c
                    == 34 {
                    proof {
                        assert(is_delimiter(wh[0]));
                        assert(take_word(wh) == Some((Seq::<u8>::empty(), 0int)));
                        assert(s@ + Seq::<u8>::empty() =~= s@);
                    }
                    stopped = true;
                } else if c == 92 {
                    if input.len() - i <= 1 {
                        proof {
                            assert(wh.len() < 2);
                            assert(take_word(wh) is None);
                        }
                        return Err(ParseError::InvalidText);
                    }
                    let c2 = input[i + 1];
                    proof {
                        assert(wh[1] == c2);
                    }
                    let ghost sv0 = s@;
                    s.push(92);
                    s.push(c2);
                    i = i + 2;
                    proof {
                        assert(wh.skip(2) =~= input@.skip(i as int));
                        match take_word(input@.skip(i as int)) {
                            Some(p) => {
                                assert(sv0 + (seq![92u8, c2] + p.0) =~= s@ + p.0);
                            },
                            _ => {},
                        }
                    }
                } else {
                    let ghost sv0 = s@;
                    s.push(c);
                    i = i + 1;
                    proof {
                        assert(wh.skip(1) =~= input@.skip(i as int));
                        match take_word(input@.skip(i as int)) {
                            Some(p) => {
                                assert(sv0 + (seq![c] + p.0) =~= s@ + p.0);
                            },
                            _ => {},
                        }
                    }
                }
            }
            proof {
                if !stopped {
                    assert(i == input@.len());
                    assert(input@.skip(i as int) =~= Seq::<u8>::empty());
                    assert(take_word(Seq::<u8>::empty()) == Some((Seq::<u8>::empty(), 0int)));
                    assert(s@ + Seq::<u8>::empty() =~= s@);
                }
                assert(take_word(input@.skip(w0 as int)) == Some((s@, i - w0 as int)));
                lemma_take_word_span(input@.skip(w0 as int));
                let wt = input@.skip(w0 as int);
                lemma_take_word_span(wt.skip(1));
                lemma_take_word_span(wt.skip(2));
                assert(i - w0 >= 1);
                assert(wt.skip(i - w0 as int) =~= input@.skip(i as int));
            }
            if s.len() == 0 {
                // cannot happen: the dispatch byte is not a delimiter
                proof {
                    let wtail = input@.skip(w0 as int);
                    assert(wtail[0] == input@[w0 as int]);
                    assert(take_word(wtail) == Some((s@, i - w0 as int)));
                    assert((take_word(wtail)->Some_0).0.len() >= 1);
                    assert(false);
                }
                return Err(ParseError::InvalidText);
            }
            let ghost tv1 = tokens_view(tokens);
            let ghost sv = s@;
            tokens.push(Token::CharData(s));
            proof {
                assert(tokens_view(tokens) =~= tv1.push(TokenV::CharData(sv)));
                match spec_lex_at(input@.skip(i as int), depth as int, false) {
                    Some(ts) => {
                        assert(tv1 + (seq![TokenV::CharData(sv)] + ts) =~= tokens_view(tokens)
                            + ts);
                    },
                    _ => {},
                }
            }
        }
    }
    proof {
        assert(input@.skip(input@.len() as int) =~= Seq::<u8>::empty());
    }
    if depth != 0 {
        return Err(ParseError::InvalidText);
    }
    proof {
        match spec_lex_at(Seq::<u8>::empty(), depth as int, line_start) {
            Some(ts) => {
                assert(tokens_view(tokens) + ts =~= tokens_view(tokens));
            },
            _ => {},
        }
    }
    Ok(tokens)
}

} // verus!
