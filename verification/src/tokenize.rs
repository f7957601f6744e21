//! The lexer: a single left-to-right scan that turns an input line into a
//! flat token sequence. Whitespace separates atoms and emits nothing; each
//! of `(`, `)`, `+`, `*` ends any atom in progress and stands alone; every
//! other character joins the current atom. No input is rejected here.

use vstd::prelude::*;

verus! {

/// A lexical token: a parenthesis, an operator, or an atom of raw text.
#[derive(Clone)]
pub enum Token {
    OpenParen,
    CloseParen,
    Plus,
    Times,
    String(String),
}

/// The mathematical view of a token: atoms carry their character sequence.
pub enum VToken {
    OpenParen,
    CloseParen,
    Plus,
    Times,
    Atom(Seq<char>),
}

impl View for Token {
    type V = VToken;

    open spec fn view(&self) -> VToken {
        match self {
            Token::OpenParen => VToken::OpenParen,
            Token::CloseParen => VToken::CloseParen,
            Token::Plus => VToken::Plus,
            Token::Times => VToken::Times,
            Token::String(s) => VToken::Atom(s@),
        }
    }
}

/// The views of a token vector, in order.
pub open spec fn view_tokens(ts: Seq<Token>) -> Seq<VToken> {
    Seq::new(ts.len(), |i: int| ts[i]@)
}

impl Token {
    /// The textual form of the token, as the lexer read it.
    pub fn to_str(&self) -> (r: &str)
        ensures
            r@ == self.spec_str(),
    {
        proof {
            reveal_strlit("(");
            reveal_strlit(")");
            reveal_strlit("+");
            reveal_strlit("*");
        }
        match self {
            Token::OpenParen => "(",
            Token::CloseParen => ")",
            Token::Plus => "+",
            Token::Times => "*",
            Token::String(s) => s.as_str(),
        }
    }

    /// The characters `to_str` returns.
    pub open spec fn spec_str(&self) -> Seq<char> {
        match self@ {
            VToken::OpenParen => seq!['('],
            VToken::CloseParen => seq![')'],
            VToken::Plus => seq!['+'],
            VToken::Times => seq!['*'],
            VToken::Atom(s) => s,
        }
    }

    /// An owned copy of the token.
    pub fn dup(&self) -> (t: Token)
        ensures
            t@ == self@,
    {
        match self {
            Token::OpenParen => Token::OpenParen,
            Token::CloseParen => Token::CloseParen,
            Token::Plus => Token::Plus,
            Token::Times => Token::Times,
            Token::String(s) => Token::String(s.clone()),
        }
    }
}

/// Whether a character is whitespace (the characters with the Unicode
/// `White_Space` property, as `char::is_whitespace` has them).
pub open spec fn is_space(c: char) -> bool {
    ||| c == '\t'
    ||| c == '\n'
    ||| c == '\u{000B}'
    ||| c == '\u{000C}'
    ||| c == '\r'
    ||| c == ' '
    ||| c == '\u{0085}'
    ||| c == '\u{00A0}'
    ||| c == '\u{1680}'
    ||| c == '\u{2000}'
    ||| c == '\u{2001}'
    ||| c == '\u{2002}'
    ||| c == '\u{2003}'
    ||| c == '\u{2004}'
    ||| c == '\u{2005}'
    ||| c == '\u{2006}'
    ||| c == '\u{2007}'
    ||| c == '\u{2008}'
    ||| c == '\u{2009}'
    ||| c == '\u{200A}'
    ||| c == '\u{2028}'
    ||| c == '\u{2029}'
    ||| c == '\u{202F}'
    ||| c == '\u{205F}'
    ||| c == '\u{3000}'
}

fn space_char(c: char) -> (r: bool)
    ensures
        r == is_space(c),
{
    c == '\t' || c == '\n' || c == '\u{000B}' || c == '\u{000C}' || c == '\r' || c == ' '
        || c == '\u{0085}' || c == '\u{00A0}' || c == '\u{1680}' || c == '\u{2000}'
        || c == '\u{2001}' || c == '\u{2002}' || c == '\u{2003}' || c == '\u{2004}'
        || c == '\u{2005}' || c == '\u{2006}' || c == '\u{2007}' || c == '\u{2008}'
        || c == '\u{2009}' || c == '\u{200A}' || c == '\u{2028}' || c == '\u{2029}'
        || c == '\u{202F}' || c == '\u{205F}' || c == '\u{3000}'
}

/// Whether a character ends an atom: an operator, a parenthesis or
/// whitespace.
pub open spec fn is_special(c: char) -> bool {
    c == '(' || c == ')' || c == '+' || c == '*' || is_space(c)
}

/// The token a special character stands for (whitespace stands for none).
pub open spec fn special_token(c: char) -> Option<VToken> {
    if c == '(' {
        Some(VToken::OpenParen)
    } else if c == ')' {
        Some(VToken::CloseParen)
    } else if c == '+' {
        Some(VToken::Plus)
    } else if c == '*' {
        Some(VToken::Times)
    } else {
        None
    }
}

/// The lexer's scan from position `i`, with an atom in progress since
/// position `astart` (none when `astart == i`) and `out` already emitted.
pub open spec fn spec_tokenize_from(s: Seq<char>, i: int, astart: int, out: Seq<VToken>) -> Seq<
    VToken,
>
    decreases s.len() - i,
{
    if i < 0 || i >= s.len() {
        if astart < i {
            out.push(VToken::Atom(s.subrange(astart, i)))
        } else {
            out
        }
    } else if is_special(s[i]) {
        let out2 = if astart < i {
            out.push(VToken::Atom(s.subrange(astart, i)))
        } else {
            out
        };
        let out3 = match special_token(s[i]) {
            Some(t) => out2.push(t),
            None => out2,
        };
        spec_tokenize_from(s, i + 1, i + 1, out3)
    } else {
        spec_tokenize_from(s, i + 1, astart, out)
    }
}

/// The token sequence of an input line.
pub open spec fn spec_tokenize(s: Seq<char>) -> Seq<VToken> {
    spec_tokenize_from(s, 0, 0, Seq::empty())
}

/// The text a token stands for.
pub open spec fn vtoken_text(t: VToken) -> Seq<char> {
    match t {
        VToken::OpenParen => seq!['('],
        VToken::CloseParen => seq![')'],
        VToken::Plus => seq!['+'],
        VToken::Times => seq!['*'],
        VToken::Atom(a) => a,
    }
}

/// The concatenated text of the tokens from index `i` on.
pub open spec fn cat_text(ts: Seq<VToken>, i: int) -> Seq<char>
    decreases ts.len() - i,
{
    if i < 0 || i >= ts.len() {
        Seq::empty()
    } else {
        vtoken_text(ts[i]) + cat_text(ts, i + 1)
    }
}

/// The input with its whitespace removed.
pub open spec fn strip_space(s: Seq<char>) -> Seq<char>
    decreases s.len(),
{
    if s.len() == 0 {
        Seq::empty()
    } else if is_space(s[0]) {
        strip_space(s.drop_first())
    } else {
        seq![s[0]] + strip_space(s.drop_first())
    }
}

/// Whether every atom of a token sequence is a nonempty run of
/// non-special characters (no parenthesis, operator or whitespace).
pub open spec fn atoms_ok(ts: Seq<VToken>) -> bool {
    forall|t: int| 0 <= t < ts.len() && ts[t] is Atom ==> (#[trigger] ts[t])->Atom_0.len() > 0
        && (forall|j: int| 0 <= j < ts[t]->Atom_0.len() ==> !is_special(#[trigger] ts[t]->Atom_0[j]))
}

proof fn lemma_cat_push(ts: Seq<VToken>, x: VToken, i: int)
    requires
        0 <= i <= ts.len(),
    ensures
        cat_text(ts.push(x), i) == cat_text(ts, i) + vtoken_text(x),
    decreases ts.len() - i,
{
    if i == ts.len() {
        assert(ts.push(x)[i] == x);
        assert(cat_text(ts.push(x), i + 1) =~= Seq::<char>::empty());
        assert(cat_text(ts.push(x), i) =~= vtoken_text(x) + cat_text(ts.push(x), i + 1));
        assert(cat_text(ts, i) + vtoken_text(x) =~= vtoken_text(x));
        assert(cat_text(ts.push(x), i) =~= vtoken_text(x));
    } else {
        assert(ts.push(x)[i] == ts[i]);
        lemma_cat_push(ts, x, i + 1);
        assert(cat_text(ts.push(x), i) =~= cat_text(ts, i) + vtoken_text(x));
    }
}

proof fn lemma_atoms_ok_push(ts: Seq<VToken>, x: VToken)
    requires
        atoms_ok(ts),
        x is Atom ==> x->Atom_0.len() > 0 && (forall|j: int|
            0 <= j < x->Atom_0.len() ==> !is_special(#[trigger] x->Atom_0[j])),
    ensures
        atoms_ok(ts.push(x)),
{
    assert forall|t: int|
        0 <= t < ts.push(x).len() && ts.push(x)[t] is Atom implies (#[trigger] ts.push(
        x,
    )[t])->Atom_0.len() > 0 && (forall|j: int|
        0 <= j < ts.push(x)[t]->Atom_0.len() ==> !is_special(
            #[trigger] ts.push(x)[t]->Atom_0[j],
        )) by {
        if t < ts.len() {
            assert(ts.push(x)[t] == ts[t]);
        } else {
            assert(ts.push(x)[t] == x);
        }
    }
}

proof fn lemma_tok_from_props(s: Seq<char>, i: int, astart: int, out: Seq<VToken>)
    requires
        0 <= astart <= i <= s.len(),
        forall|j: int| astart <= j < i ==> !is_special(#[trigger] s[j]),
        atoms_ok(out),
    ensures
        atoms_ok(spec_tokenize_from(s, i, astart, out)),
        cat_text(spec_tokenize_from(s, i, astart, out), 0) == cat_text(out, 0) + s.subrange(
            astart,
            i,
        ) + strip_space(s.skip(i)),
    decreases s.len() - i,
{
    if i >= s.len() {
        assert(s.skip(i) =~= Seq::<char>::empty());
        assert(strip_space(s.skip(i)) == Seq::<char>::empty());
        if astart < i {
            let atom = VToken::Atom(s.subrange(astart, i));
            lemma_cat_push(out, atom, 0);
            lemma_atoms_ok_push(out, atom);
            assert(cat_text(out, 0) + vtoken_text(atom) =~= cat_text(out, 0) + s.subrange(
                astart,
                i,
            ) + strip_space(s.skip(i)));
        } else {
            assert(s.subrange(astart, i) =~= Seq::<char>::empty());
            assert(cat_text(out, 0) + s.subrange(astart, i) + strip_space(s.skip(i)) =~= cat_text(
                out,
                0,
            ));
        }
    } else {
        assert(s.skip(i)[0] == s[i]);
        assert(s.skip(i).drop_first() =~= s.skip(i + 1));
        if is_special(s[i]) {
            let out2: Seq<VToken> = if astart < i {
                out.push(VToken::Atom(s.subrange(astart, i)))
            } else {
                out
            };
            let out3: Seq<VToken> = match special_token(s[i]) {
                Some(t) => out2.push(t),
                None => out2,
            };
            if astart < i {
                lemma_cat_push(out, VToken::Atom(s.subrange(astart, i)), 0);
                lemma_atoms_ok_push(out, VToken::Atom(s.subrange(astart, i)));
            } else {
                assert(s.subrange(astart, i) =~= Seq::<char>::empty());
            }
            assert(cat_text(out2, 0) =~= cat_text(out, 0) + s.subrange(astart, i));
            match special_token(s[i]) {
                Some(t) => {
                    lemma_cat_push(out2, t, 0);
                    lemma_atoms_ok_push(out2, t);
                    assert(vtoken_text(t) =~= seq![s[i]]);
                    assert(!is_space(s[i]));
                    assert(strip_space(s.skip(i)) == seq![s[i]] + strip_space(s.skip(i + 1)));
                },
                None => {
                    assert(is_space(s[i]));
                    assert(strip_space(s.skip(i)) == strip_space(s.skip(i + 1)));
                },
            }
            lemma_tok_from_props(s, i + 1, i + 1, out3);
            assert(s.subrange(i + 1, i + 1) =~= Seq::<char>::empty());
            assert(cat_text(out3, 0) + s.subrange(i + 1, i + 1) + strip_space(s.skip(i + 1))
                =~= cat_text(out, 0) + s.subrange(astart, i) + strip_space(s.skip(i)));
        } else {
            lemma_tok_from_props(s, i + 1, astart, out);
            assert(s.subrange(astart, i + 1) =~= s.subrange(astart, i) + seq![s[i]]);
            assert(strip_space(s.skip(i)) == seq![s[i]] + strip_space(s.skip(i + 1)));
            assert(cat_text(out, 0) + s.subrange(astart, i + 1) + strip_space(s.skip(i + 1))
                =~= cat_text(out, 0) + s.subrange(astart, i) + strip_space(s.skip(i)));
        }
    }
}

/// The lexer loses exactly the whitespace: the tokens' texts concatenated
/// in order are the input with its whitespace removed, and every atom is a
/// nonempty run free of parentheses, operators and whitespace.
pub proof fn lemma_tokenize_props(s: Seq<char>)
    ensures
        cat_text(spec_tokenize(s), 0) == strip_space(s),
        atoms_ok(spec_tokenize(s)),
{
    assert(atoms_ok(Seq::<VToken>::empty()));
    lemma_tok_from_props(s, 0, 0, Seq::empty());
    assert(s.subrange(0, 0) =~= Seq::<char>::empty());
    assert(s.skip(0) =~= s);
    assert(cat_text(Seq::<VToken>::empty(), 0) + s.subrange(0, 0) + strip_space(s) =~= strip_space(
        s,
    ));
}

/// Lexical analysis: split an input line into parentheses, `+`, `*`, and
/// atoms (maximal runs of other non-whitespace characters). No lexical errors
/// are possible; every character is accepted.
pub fn tokenize(s: &str) -> (r: Vec<Token>)
    ensures
        view_tokens(r@) == spec_tokenize(s@),
{
    let n = s.unicode_len();
    let mut out: Vec<Token> = Vec::new();
    let mut i: usize = 0;
    let mut astart: usize = 0;
    proof {
        assert(view_tokens(out@) =~= Seq::<VToken>::empty());
    }
    while i < n
        invariant
            n == s@.len(),
            0 <= astart <= i <= n,
            spec_tokenize(s@) == spec_tokenize_from(s@, i as int, astart as int, view_tokens(out@)),
        decreases n - i,
    {
        let ghost out0 = view_tokens(out@);
        let c = s.get_char(i);
        let sp = space_char(c);
        let special = sp || c == '(' || c == ')' || c == '+' || c == '*';
        if special {
            if astart < i {
                let atom = s.substring_char(astart, i);
                out.push(Token::String(String::from_str(atom)));
                proof {
                    assert(view_tokens(out@) =~= out0.push(VToken::Atom(s@.subrange(
                        astart as int,
                        i as int,
                    ))));
                }
            }
            let ghost out2 = view_tokens(out@);
            if c == '(' {
                out.push(Token::OpenParen);
            } else if c == ')' {
                out.push(Token::CloseParen);
            } else if c == '+' {
                out.push(Token::Plus);
            } else if c == '*' {
                out.push(Token::Times);
            }
            proof {
                if !sp {
                    assert(view_tokens(out@) =~= out2.push(special_token(s@[i as int]).unwrap()));
                } else {
                    assert(special_token(s@[i as int]) is None);
                    assert(view_tokens(out@) =~= out2);
                }
            }
            i = i + 1;
            astart = i;
        } else {
            i = i + 1;
        }
    }
    if astart < i {
        let ghost out0 = view_tokens(out@);
        let atom = s.substring_char(astart, i);
        out.push(Token::String(String::from_str(atom)));
        proof {
            assert(view_tokens(out@) =~= out0.push(VToken::Atom(s@.subrange(
                astart as int,
                i as int,
            ))));
        }
    }
    out
}

} // verus!
