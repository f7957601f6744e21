//! The tree-rewrite passes: parenthesis grouping, product grouping, and the
//! evaluable expression tree with its evaluator.

use vstd::prelude::*;

use crate::tokenize::{Token, VToken, view_tokens, tokenize, spec_tokenize};
use crate::majorana::{
    MajoranaExpr, EvalError, Term, wf_terms, sadd, spoly_mul, identity_poly, spec_atom, gen_big,
};

verus! {

broadcast use vstd::std_specs::vec::group_vec_axioms, vstd::seq::group_seq_axioms;

/// The parenthesis tree: a leaf token, or one nesting level of siblings.
pub enum TokenTree {
    Children(Vec<TokenTree>),
    Leaf(Token),
}

/// The mathematical view of a parenthesis tree.
pub enum VTree {
    Children(Seq<VTree>),
    Leaf(VToken),
}

/// The view of a parenthesis tree.
pub open spec fn view_tree(t: TokenTree) -> VTree
    decreases t, 0int, 0int,
{
    match t {
        TokenTree::Leaf(tok) => VTree::Leaf(tok@),
        TokenTree::Children(v) => VTree::Children(view_tree_seq(v@, 0)),
    }
}

/// The views of the trees of `s`, from index `i` on.
pub open spec fn view_tree_seq(s: Seq<TokenTree>, i: int) -> Seq<VTree>
    decreases s, 1int, s.len() - i,
{
    if i < 0 || i >= s.len() {
        Seq::empty()
    } else {
        seq![view_tree(s[i])] + view_tree_seq(s, i + 1)
    }
}

/// Appending a tree appends its view.
proof fn lemma_view_tree_seq_push(s: Seq<TokenTree>, x: TokenTree, i: int)
    requires
        0 <= i <= s.len(),
    ensures
        view_tree_seq(s.push(x), i) == view_tree_seq(s, i) + seq![view_tree(x)],
    decreases s.len() - i,
{
    if i == s.len() {
        assert(s.push(x)[i] == x);
        assert(view_tree_seq(s.push(x), i + 1) =~= Seq::<VTree>::empty());
        assert(view_tree_seq(s.push(x), i) =~= seq![view_tree(x)] + view_tree_seq(s.push(x), i + 1));
        assert(view_tree_seq(s, i) + seq![view_tree(x)] =~= seq![view_tree(x)]);
        assert(view_tree_seq(s.push(x), i) =~= seq![view_tree(x)]);
    } else {
        assert(s.push(x)[i] == s[i]);
        lemma_view_tree_seq_push(s, x, i + 1);
        assert(view_tree_seq(s.push(x), i) =~= view_tree_seq(s, i) + seq![view_tree(x)]);
    }
}

impl View for TokenTree {
    type V = VTree;

    open spec fn view(&self) -> VTree {
        view_tree(*self)
    }
}

/// The recursive-descent grouping of a token sequence, from index `i`: the
/// index after the group and the group's sibling nodes. The group ends at a
/// `CloseParen` (consumed) or at end of input; an `OpenParen` opens a nested
/// group. Unmatched parentheses are recovered, never rejected: a missing
/// `CloseParen` is supplied at end of input, a stray `CloseParen` closes the
/// level it stands in.
pub open spec fn spec_parse(toks: Seq<VToken>, i: int) -> (int, Seq<VTree>)
    decreases toks.len() - i,
{
    if i < 0 || i >= toks.len() {
        (i, Seq::empty())
    } else if toks[i] is CloseParen {
        (i + 1, Seq::empty())
    } else {
        let (sub, child): (int, VTree) = if toks[i] is OpenParen {
            let (j0, inner) = spec_parse(toks, i + 1);
            (j0, VTree::Children(inner))
        } else {
            (i + 1, VTree::Leaf(toks[i]))
        };
        // The clamp only justifies the termination measure: by
        // `lemma_parse_bounds` the returned index already lies in this range.
        let j = if sub <= i {
            i + 1
        } else if sub > toks.len() {
            toks.len() as int
        } else {
            sub
        };
        let (k, rest) = spec_parse(toks, j);
        (k, seq![child] + rest)
    }
}

/// The parse position always advances and never passes the end.
pub proof fn lemma_parse_bounds(toks: Seq<VToken>, i: int)
    requires
        0 <= i <= toks.len(),
    ensures
        i < toks.len() ==> i < spec_parse(toks, i).0 <= toks.len(),
        i == toks.len() ==> spec_parse(toks, i).0 == i,
    decreases toks.len() - i,
{
    if i < toks.len() && !(toks[i] is CloseParen) {
        if toks[i] is OpenParen {
            lemma_parse_bounds(toks, i + 1);
        }
        let (sub, _): (int, VTree) = if toks[i] is OpenParen {
            let (j0, inner) = spec_parse(toks, i + 1);
            (j0, VTree::Children(inner))
        } else {
            (i + 1, VTree::Leaf(toks[i]))
        };
        let j = if sub <= i {
            i + 1
        } else if sub > toks.len() {
            toks.len() as int
        } else {
            sub
        };
        lemma_parse_bounds(toks, j);
    }
}

fn make_tree_rec(vec: &Vec<Token>, idx: usize) -> (res: (usize, TokenTree))
    requires
        idx <= vec@.len(),
    ensures
        res.0 == spec_parse(view_tokens(vec@), idx as int).0 || (idx == vec@.len() && res.0
            == idx),
        res.1@ == VTree::Children(spec_parse(view_tokens(vec@), idx as int).1),
        idx <= res.0 <= vec@.len(),
    decreases vec@.len() - idx,
{
    let ghost toks = view_tokens(vec@);
    let mut i: usize = idx;
    let mut current: Vec<TokenTree> = Vec::new();
    proof {
        lemma_parse_bounds(toks, idx as int);
        assert(view_tree_seq(current@, 0) =~= Seq::<VTree>::empty());
    }
    while i < vec.len()
        invariant
            idx <= i <= vec@.len(),
            toks == view_tokens(vec@),
            toks.len() == vec@.len(),
            spec_parse(toks, idx as int).0 == spec_parse(toks, i as int).0 || (i == vec@.len()
                && spec_parse(toks, idx as int).0 == i),
            spec_parse(toks, idx as int).1 == view_tree_seq(current@, 0) + spec_parse(
                toks,
                i as int,
            ).1,
        decreases vec@.len() - i,
    {
        let ghost cur0 = view_tree_seq(current@, 0);
        proof {
            lemma_parse_bounds(toks, i as int);
        }
        match &vec[i] {
            Token::CloseParen => {
                proof {
                    assert(spec_parse(toks, i as int) == (i + 1 as int, Seq::<VTree>::empty()));
                    assert(cur0 + Seq::<VTree>::empty() =~= cur0);
                }
                return (i + 1, TokenTree::Children(current));
            },
            Token::OpenParen => {
                let (ni, sub) = make_tree_rec(vec, i + 1);
                let ghost prev = current@;
                current.push(sub);
                proof {
                    lemma_parse_bounds(toks, i + 1);
                    let (j0, inner) = spec_parse(toks, i + 1);
                    assert(sub@ == VTree::Children(inner));
                    assert(ni == j0 || (i + 1 == vec@.len() && ni == i + 1));
                    lemma_view_tree_seq_push(prev, sub, 0);
                    assert(view_tree_seq(current@, 0) == cur0 + seq![VTree::Children(inner)]);
                    assert(cur0 + spec_parse(toks, i as int).1 =~= (cur0 + seq![
                        VTree::Children(inner),
                    ]) + spec_parse(toks, ni as int).1);
                }
                i = ni;
            },
            other => {
                let leaf = TokenTree::Leaf(other.dup());
                let ghost lf = leaf;
                let ghost prev = current@;
                current.push(leaf);
                proof {
                    assert(view_tree(lf) == VTree::Leaf(toks[i as int]));
                    lemma_view_tree_seq_push(prev, lf, 0);
                    assert(view_tree_seq(current@, 0) == cur0 + seq![VTree::Leaf(toks[i as int])]);
                    assert(cur0 + spec_parse(toks, i as int).1 =~= (cur0 + seq![
                        VTree::Leaf(toks[i as int]),
                    ]) + spec_parse(toks, i + 1).1);
                }
                i = i + 1;
            },
        }
    }
    proof {
        assert(spec_parse(toks, i as int) == (i as int, Seq::<VTree>::empty()));
        assert(view_tree_seq(current@, 0) + Seq::<VTree>::empty() =~= view_tree_seq(current@, 0));
    }
    (i, TokenTree::Children(current))
}

/// Build the parenthesis tree of a token sequence: one `Children` level per
/// parenthesis nesting, with unmatched parentheses silently recovered.
pub fn make_tree(vec: Vec<Token>) -> (t: TokenTree)
    ensures
        t@ == VTree::Children(spec_parse(view_tokens(vec@), 0).1),
{
    let (_, t) = make_tree_rec(&vec, 0);
    t
}

/// The product tree: as the parenthesis tree, plus explicit n-ary product
/// nodes into which `*` and juxtaposition have been folded.
pub enum TokenProductTree {
    Children(Vec<TokenProductTree>),
    Product(Vec<TokenProductTree>),
    Leaf(Token),
}

/// The mathematical view of a product tree.
pub enum VProd {
    Children(Seq<VProd>),
    Product(Seq<VProd>),
    Leaf(VToken),
}

/// The view of a product tree.
pub open spec fn view_prod(t: TokenProductTree) -> VProd
    decreases t, 0int, 0int,
{
    match t {
        TokenProductTree::Leaf(tok) => VProd::Leaf(tok@),
        TokenProductTree::Children(v) => VProd::Children(view_prod_seq(v@, 0)),
        TokenProductTree::Product(v) => VProd::Product(view_prod_seq(v@, 0)),
    }
}

/// The views of the product trees of `s`, from index `i` on.
pub open spec fn view_prod_seq(s: Seq<TokenProductTree>, i: int) -> Seq<VProd>
    decreases s, 1int, s.len() - i,
{
    if i < 0 || i >= s.len() {
        Seq::empty()
    } else {
        seq![view_prod(s[i])] + view_prod_seq(s, i + 1)
    }
}

impl View for TokenProductTree {
    type V = VProd;

    open spec fn view(&self) -> VProd {
        view_prod(*self)
    }
}

/// The view sequence indexes elementwise.
proof fn lemma_view_prod_seq_index(s: Seq<TokenProductTree>, i: int)
    requires
        0 <= i <= s.len(),
    ensures
        view_prod_seq(s, i).len() == s.len() - i,
        forall|j: int| 0 <= j < s.len() - i ==> #[trigger] view_prod_seq(s, i)[j] == view_prod(
            s[i + j],
        ),
    decreases s.len() - i,
{
    if i < s.len() {
        lemma_view_prod_seq_index(s, i + 1);
        assert forall|j: int| 0 <= j < s.len() - i implies #[trigger] view_prod_seq(s, i)[j]
            == view_prod(s[i + j]) by {
            if j > 0 {
                assert(view_prod_seq(s, i)[j] == view_prod_seq(s, i + 1)[j - 1]);
                assert(view_prod_seq(s, i + 1)[j - 1] == view_prod(s[i + 1 + (j - 1)]));
            }
        }
    }
}

/// The view of a whole vector of product trees.
pub open spec fn view_prods(s: Seq<TokenProductTree>) -> Seq<VProd> {
    view_prod_seq(s, 0)
}

proof fn lemma_view_prods_push(s: Seq<TokenProductTree>, x: TokenProductTree)
    ensures
        view_prods(s.push(x)) == view_prods(s).push(view_prod(x)),
{
    lemma_view_prod_seq_index(s, 0);
    lemma_view_prod_seq_index(s.push(x), 0);
    assert(view_prods(s.push(x)) =~= view_prods(s).push(view_prod(x)));
}

proof fn lemma_view_prods_pop(s: Seq<TokenProductTree>)
    requires
        s.len() > 0,
    ensures
        view_prods(s.drop_last()) == view_prods(s).drop_last(),
        view_prod(s.last()) == view_prods(s).last(),
{
    lemma_view_prod_seq_index(s, 0);
    lemma_view_prod_seq_index(s.drop_last(), 0);
    assert(view_prods(s.drop_last()) =~= view_prods(s).drop_last());
}

/// The product-grouping fold over one nesting level, from child `i` with
/// the already rewritten prefix `acc`: an explicit `*` merges the last
/// accumulated node with the next child into a `Product`; two adjacent
/// non-operator nodes merge implicitly the same way; `+` is kept as a
/// separator and blocks merging. A `*` with nothing to its left is dropped;
/// one with nothing to its right is an error (`None`).
pub open spec fn spec_products_fold(cs: Seq<VTree>, i: int, acc: Seq<VProd>) -> Option<Seq<VProd>>
    decreases cs, 1int, cs.len() - i,
{
    if i < 0 {
        None
    } else if i >= cs.len() {
        Some(acc)
    } else if cs[i] == VTree::Leaf(VToken::Times) {
        if acc.len() == 0 {
            spec_products_fold(cs, i + 1, acc)
        } else if i + 1 >= cs.len() {
            None
        } else {
            match spec_products(cs[i + 1]) {
                Some(nxt) => spec_products_fold(
                    cs,
                    i + 2,
                    acc.drop_last().push(VProd::Product(seq![acc.last(), nxt])),
                ),
                None => None,
            }
        }
    } else if cs[i] == VTree::Leaf(VToken::Plus) {
        spec_products_fold(cs, i + 1, acc.push(VProd::Leaf(VToken::Plus)))
    } else {
        match spec_products(cs[i]) {
            Some(v) => if acc.len() > 0 && acc.last() != VProd::Leaf(VToken::Plus) {
                spec_products_fold(cs, i + 1, acc.drop_last().push(VProd::Product(seq![acc.last(), v])))
            } else {
                spec_products_fold(cs, i + 1, acc.push(v))
            },
            None => None,
        }
    }
}

/// The product-grouping pass over a parenthesis tree.
pub open spec fn spec_products(t: VTree) -> Option<VProd>
    decreases t, 2int, 0int,
{
    match t {
        VTree::Leaf(tok) => Some(VProd::Leaf(tok)),
        VTree::Children(cs) => match spec_products_fold(cs, 0, Seq::empty()) {
            Some(acc) => Some(VProd::Children(acc)),
            None => None,
        },
    }
}

fn is_plus_leaf(t: &TokenProductTree) -> (r: bool)
    ensures
        r == (t@ == VProd::Leaf(VToken::Plus)),
{
    match t {
        TokenProductTree::Leaf(Token::Plus) => true,
        _ => false,
    }
}

/// Rewrite a parenthesis tree into a product tree: explicit `*` and
/// implicit juxtaposition become left-associated `Product` nodes, `+`
/// leaves remain as separators. A `*` with no operand to its right is
/// reported as `MissingOperand`.
pub fn make_products(token_tree: &TokenTree) -> (r: Result<TokenProductTree, EvalError>)
    ensures
        (r is Ok) == (spec_products(token_tree@) is Some),
        r matches Ok(t) ==> Some(t@) == spec_products(token_tree@),
        r matches Err(e) ==> e is MissingOperand,
    decreases *token_tree,
{
    match token_tree {
        TokenTree::Leaf(token) => Ok(TokenProductTree::Leaf(token.dup())),
        TokenTree::Children(vec) => {
            let ghost cs = view_tree_seq(vec@, 0);
            proof {
                lemma_view_tree_seq_index(vec@, 0);
                assert(token_tree@ == VTree::Children(cs));
            }
            let mut new_vec: Vec<TokenProductTree> = Vec::new();
            let mut idx: usize = 0;
            proof {
                assert(view_prods(new_vec@) =~= Seq::<VProd>::empty());
            }
            while idx < vec.len()
                invariant
                    0 <= idx <= vec@.len(),
                    *token_tree == TokenTree::Children(*vec),
                    token_tree@ == VTree::Children(cs),
                    cs == view_tree_seq(vec@, 0),
                    cs.len() == vec@.len(),
                    forall|j: int| 0 <= j < vec@.len() ==> cs[j] == view_tree(vec@[j]),
                    spec_products_fold(cs, idx as int, view_prods(new_vec@)) == spec_products_fold(
                        cs,
                        0,
                        Seq::empty(),
                    ),
                decreases vec@.len() - idx,
            {
                let ghost acc0 = view_prods(new_vec@);
                match &vec[idx] {
                    TokenTree::Leaf(Token::Times) => {
                        if new_vec.len() == 0 {
                            proof {
                                assert(acc0.len() == 0) by {
                                    lemma_view_prod_seq_index(new_vec@, 0);
                                }
                            }
                            idx = idx + 1;
                        } else if idx + 1 >= vec.len() {
                            proof {
                                lemma_view_prod_seq_index(new_vec@, 0);
                                assert(spec_products_fold(cs, idx as int, acc0) is None);
                            }
                            return Err(EvalError::MissingOperand);
                        } else {
                            proof {
                                let ghost tt = *token_tree;
                                assert(tt == TokenTree::Children(*vec));
                                assert(decreases_to!(tt => tt->Children_0));
                                assert(decreases_to!(tt->Children_0 => tt->Children_0@));
                                assert(decreases_to!(tt->Children_0@ => tt->Children_0@[idx as int + 1]));
                                assert(decreases_to!(*token_tree => vec@[idx as int + 1]));
                            }
                            let nxt = match make_products(&vec[idx + 1]) {
                                Ok(v) => v,
                                Err(e) => {
                                    proof {
                                        lemma_view_prod_seq_index(new_vec@, 0);
                                        assert(spec_products_fold(cs, idx as int, acc0) is None);
                                    }
                                    return Err(e);
                                },
                            };
                            let ghost prev = new_vec@;
                            let p = match new_vec.pop() {
                                Some(p) => p,
                                None => {
                                    return Err(EvalError::MissingOperand);
                                },
                            };
                            let mut pv: Vec<TokenProductTree> = Vec::new();
                            pv.push(p);
                            pv.push(nxt);
                            let merged = TokenProductTree::Product(pv);
                            let ghost prev2 = new_vec@;
                            new_vec.push(merged);
                            proof {
                                lemma_view_prod_seq_index(pv@, 0);
                                lemma_view_prods_pop(prev);
                                lemma_view_prods_push(prev2, merged);
                                assert(view_prod_seq(pv@, 0) =~= seq![
                                    acc0.last(),
                                    spec_products(cs[idx + 1]).unwrap(),
                                ]);
                                assert(view_prods(new_vec@) == acc0.drop_last().push(
                                    VProd::Product(
                                        seq![acc0.last(), spec_products(cs[idx + 1]).unwrap()],
                                    ),
                                ));
                            }
                            idx = idx + 2;
                        }
                    },
                    TokenTree::Leaf(Token::Plus) => {
                        let ghost prev = new_vec@;
                        new_vec.push(TokenProductTree::Leaf(Token::Plus));
                        proof {
                            lemma_view_prods_push(prev, TokenProductTree::Leaf(Token::Plus));
                        }
                        idx = idx + 1;
                    },
                    _ => {
                        proof {
                            let ghost tt = *token_tree;
                            assert(tt == TokenTree::Children(*vec));
                            assert(decreases_to!(tt => tt->Children_0));
                            assert(decreases_to!(tt->Children_0 => tt->Children_0@));
                            assert(decreases_to!(tt->Children_0@ => tt->Children_0@[idx as int]));
                            assert(decreases_to!(*token_tree => vec@[idx as int]));
                        }
                        let v = match make_products(&vec[idx]) {
                            Ok(v) => v,
                            Err(e) => {
                                proof {
                                    assert(cs[idx as int] != VTree::Leaf(VToken::Times));
                                    assert(cs[idx as int] != VTree::Leaf(VToken::Plus));
                                    assert(spec_products_fold(cs, idx as int, acc0) is None);
                                }
                                return Err(e);
                            },
                        };
                        proof {
                            assert(cs[idx as int] != VTree::Leaf(VToken::Times));
                            assert(cs[idx as int] != VTree::Leaf(VToken::Plus));
                        }
                        let merge = if new_vec.len() > 0 {
                            let lp = is_plus_leaf(&new_vec[new_vec.len() - 1]);
                            proof {
                                lemma_view_prod_seq_index(new_vec@, 0);
                                assert(view_prods(new_vec@).last() == view_prod(new_vec@.last()));
                            }
                            !lp
                        } else {
                            false
                        };
                        if merge {
                            let ghost prev = new_vec@;
                            let p = match new_vec.pop() {
                                Some(p) => p,
                                None => {
                                    return Err(EvalError::MissingOperand);
                                },
                            };
                            let mut pv: Vec<TokenProductTree> = Vec::new();
                            pv.push(p);
                            pv.push(v);
                            let merged = TokenProductTree::Product(pv);
                            let ghost prev2 = new_vec@;
                            new_vec.push(merged);
                            proof {
                                lemma_view_prod_seq_index(pv@, 0);
                                lemma_view_prods_pop(prev);
                                lemma_view_prods_push(prev2, merged);
                                assert(view_prod_seq(pv@, 0) =~= seq![
                                    acc0.last(),
                                    spec_products(cs[idx as int]).unwrap(),
                                ]);
                                assert(view_prods(new_vec@) == acc0.drop_last().push(
                                    VProd::Product(
                                        seq![acc0.last(), spec_products(cs[idx as int]).unwrap()],
                                    ),
                                ));
                            }
                        } else {
                            let ghost prev = new_vec@;
                            proof {
                                if prev.len() > 0 {
                                    lemma_view_prod_seq_index(prev, 0);
                                } else {
                                    lemma_view_prod_seq_index(prev, 0);
                                    assert(acc0.len() == 0);
                                }
                            }
                            new_vec.push(v);
                            proof {
                                lemma_view_prods_push(prev, v);
                            }
                        }
                        idx = idx + 1;
                    },
                }
            }
            proof {
                assert(spec_products_fold(cs, idx as int, view_prods(new_vec@)) == Some(
                    view_prods(new_vec@),
                ));
            }
            Ok(TokenProductTree::Children(new_vec))
        },
    }
}

/// As `lemma_view_prod_seq_index`, for parenthesis trees.
proof fn lemma_view_tree_seq_index(s: Seq<TokenTree>, i: int)
    requires
        0 <= i <= s.len(),
    ensures
        view_tree_seq(s, i).len() == s.len() - i,
        forall|j: int| 0 <= j < s.len() - i ==> #[trigger] view_tree_seq(s, i)[j] == view_tree(
            s[i + j],
        ),
    decreases s.len() - i,
{
    if i < s.len() {
        lemma_view_tree_seq_index(s, i + 1);
        assert forall|j: int| 0 <= j < s.len() - i implies #[trigger] view_tree_seq(s, i)[j]
            == view_tree(s[i + j]) by {
            if j > 0 {
                assert(view_tree_seq(s, i)[j] == view_tree_seq(s, i + 1)[j - 1]);
                assert(view_tree_seq(s, i + 1)[j - 1] == view_tree(s[i + 1 + (j - 1)]));
            }
        }
    }
}

/// The textual form of a parenthesis tree: a leaf as its token's text, a
/// nesting level as its children joined by `, ` inside parentheses.
pub open spec fn tree_text(t: TokenTree) -> Seq<char>
    decreases t, 0int, 0int,
{
    match t {
        TokenTree::Leaf(tok) => tok.spec_str(),
        TokenTree::Children(v) => seq!['('] + tree_text_seq(v@, 0) + seq![')'],
    }
}

pub open spec fn tree_text_seq(s: Seq<TokenTree>, i: int) -> Seq<char>
    decreases s, 1int, s.len() - i,
{
    if i < 0 || i >= s.len() {
        Seq::empty()
    } else {
        tree_text(s[i]) + (if i + 1 < s.len() {
            seq![',', ' ']
        } else {
            Seq::empty()
        }) + tree_text_seq(s, i + 1)
    }
}

fn push_tree_text(t: &TokenTree, out: &mut String)
    ensures
        final(out)@ == old(out)@ + tree_text(*t),
    decreases *t,
{
    match t {
        TokenTree::Leaf(tok) => {
            let s = tok.to_str();
            out.append(s);
        },
        TokenTree::Children(v) => {
            proof {
                reveal_strlit("(");
            }
            out.append("(");
            let mut i: usize = 0;
            while i < v.len()
                invariant
                    0 <= i <= v@.len(),
                    *t == TokenTree::Children(*v),
                    out@ + tree_text_seq(v@, i as int) == old(out)@ + seq!['('] + tree_text_seq(
                        v@,
                        0,
                    ),
                decreases v@.len() - i,
            {
                let ghost pre = out@;
                proof {
                    let ghost tt = *t;
                    assert(tt == TokenTree::Children(*v));
                    assert(decreases_to!(tt => tt->Children_0));
                    assert(decreases_to!(tt->Children_0 => tt->Children_0@));
                    assert(decreases_to!(tt->Children_0@ => tt->Children_0@[i as int]));
                    assert(decreases_to!(*t => v@[i as int]));
                }
                push_tree_text(&v[i], out);
                if i + 1 < v.len() {
                    proof {
                        reveal_strlit(", ");
                    }
                    out.append(", ");
                    proof {
                        assert(", "@ =~= seq![',', ' ']);
                        assert(out@ + tree_text_seq(v@, i + 1) =~= pre + tree_text_seq(
                            v@,
                            i as int,
                        ));
                    }
                } else {
                    proof {
                        assert(out@ + tree_text_seq(v@, i + 1) =~= pre + tree_text_seq(
                            v@,
                            i as int,
                        ));
                    }
                }
                i = i + 1;
            }
            proof {
                reveal_strlit(")");
                assert(tree_text_seq(v@, i as int) =~= Seq::<char>::empty());
            }
            out.append(")");
            proof {
                assert(out@ =~= old(out)@ + (seq!['('] + tree_text_seq(v@, 0) + seq![')']));
            }
        },
    }
}

impl TokenTree {
    /// The textual form of the tree.
    pub fn render(&self) -> (r: String)
        ensures
            r@ == tree_text(*self),
    {
        let mut out = String::new();
        push_tree_text(self, &mut out);
        proof {
            assert(Seq::<char>::empty() + tree_text(*self) =~= tree_text(*self));
        }
        out
    }
}

/// The textual form of a product tree: as the parenthesis tree, with a
/// product's factors joined by ` * ` inside brackets.
pub open spec fn prod_text(t: TokenProductTree) -> Seq<char>
    decreases t, 0int, 0int,
{
    match t {
        TokenProductTree::Leaf(tok) => tok.spec_str(),
        TokenProductTree::Children(v) => seq!['('] + prod_text_seq(v@, 0, seq![',', ' ']) + seq![
            ')',
        ],
        TokenProductTree::Product(v) => seq!['['] + prod_text_seq(v@, 0, seq![' ', '*', ' '])
            + seq![']'],
    }
}

pub open spec fn prod_text_seq(s: Seq<TokenProductTree>, i: int, sep: Seq<char>) -> Seq<char>
    decreases s, 1int, s.len() - i,
{
    if i < 0 || i >= s.len() {
        Seq::empty()
    } else {
        prod_text(s[i]) + (if i + 1 < s.len() {
            sep
        } else {
            Seq::empty()
        }) + prod_text_seq(s, i + 1, sep)
    }
}

fn push_prod_text_seq(v: &Vec<TokenProductTree>, out: &mut String, comma: bool, Ghost(t): Ghost<
    TokenProductTree,
>)
    requires
        t == TokenProductTree::Children(*v) || t == TokenProductTree::Product(*v),
    ensures
        final(out)@ == old(out)@ + prod_text_seq(
            v@,
            0,
            if comma {
                seq![',', ' ']
            } else {
                seq![' ', '*', ' ']
            },
        ),
    decreases t, 0int,
{
    let ghost sep: Seq<char> = if comma {
        seq![',', ' ']
    } else {
        seq![' ', '*', ' ']
    };
    let mut i: usize = 0;
    while i < v.len()
        invariant
            0 <= i <= v@.len(),
            t == TokenProductTree::Children(*v) || t == TokenProductTree::Product(*v),
            sep == if comma {
                seq![',', ' ']
            } else {
                seq![' ', '*', ' ']
            },
            out@ + prod_text_seq(v@, i as int, sep) == old(out)@ + prod_text_seq(v@, 0, sep),
        decreases v@.len() - i,
    {
        let ghost pre = out@;
        proof {
            let ghost tt = t;
            if tt is Children {
                assert(decreases_to!(tt => tt->Children_0));
                assert(decreases_to!(tt->Children_0 => tt->Children_0@));
                assert(decreases_to!(tt->Children_0@ => tt->Children_0@[i as int]));
            } else {
                assert(decreases_to!(tt => tt->Product_0));
                assert(decreases_to!(tt->Product_0 => tt->Product_0@));
                assert(decreases_to!(tt->Product_0@ => tt->Product_0@[i as int]));
            }
            assert(decreases_to!(t => v@[i as int]));
        }
        push_prod_text(&v[i], out);
        if i + 1 < v.len() {
            if comma {
                proof {
                    reveal_strlit(", ");
                }
                out.append(", ");
                proof {
                    assert(", "@ =~= sep);
                }
            } else {
                proof {
                    reveal_strlit(" * ");
                }
                out.append(" * ");
                proof {
                    assert(" * "@ =~= sep);
                }
            }
        }
        proof {
            assert(out@ + prod_text_seq(v@, i + 1, sep) =~= pre + prod_text_seq(
                v@,
                i as int,
                sep,
            ));
        }
        i = i + 1;
    }
    proof {
        assert(prod_text_seq(v@, i as int, sep) =~= Seq::<char>::empty());
        assert(out@ + Seq::<char>::empty() =~= out@);
    }
}

fn push_prod_text(t: &TokenProductTree, out: &mut String)
    ensures
        final(out)@ == old(out)@ + prod_text(*t),
    decreases *t, 1int,
{
    match t {
        TokenProductTree::Leaf(tok) => {
            let s = tok.to_str();
            out.append(s);
        },
        TokenProductTree::Children(v) => {
            proof {
                reveal_strlit("(");
                reveal_strlit(")");
            }
            out.append("(");
            push_prod_text_seq(v, out, true, Ghost(*t));
            out.append(")");
            proof {
                assert(out@ =~= old(out)@ + (seq!['('] + prod_text_seq(v@, 0, seq![',', ' '])
                    + seq![')']));
            }
        },
        TokenProductTree::Product(v) => {
            proof {
                reveal_strlit("[");
                reveal_strlit("]");
            }
            out.append("[");
            push_prod_text_seq(v, out, false, Ghost(*t));
            out.append("]");
            proof {
                assert(out@ =~= old(out)@ + (seq!['['] + prod_text_seq(v@, 0, seq![' ', '*', ' '])
                    + seq![']']));
            }
        },
    }
}

impl TokenProductTree {
    /// The textual form of the tree.
    pub fn render(&self) -> (r: String)
        ensures
            r@ == prod_text(*self),
    {
        let mut out = String::new();
        push_prod_text(self, &mut out);
        proof {
            assert(Seq::<char>::empty() + prod_text(*self) =~= prod_text(*self));
        }
        out
    }
}

/// The evaluable expression tree: polynomial leaves, products and sums.
pub enum MathExpr {
    MajoranaExpr(MajoranaExpr),
    Product(Vec<MathExpr>),
    Sum(Vec<MathExpr>),
}

/// The mathematical view of an expression tree.
pub enum VExpr {
    Poly(Seq<Term>),
    Product(Seq<VExpr>),
    Sum(Seq<VExpr>),
}

/// The view of an expression tree.
pub open spec fn view_expr(e: MathExpr) -> VExpr
    decreases e, 0int, 0int,
{
    match e {
        MathExpr::MajoranaExpr(p) => VExpr::Poly(p@),
        MathExpr::Product(v) => VExpr::Product(view_expr_seq(v@, 0)),
        MathExpr::Sum(v) => VExpr::Sum(view_expr_seq(v@, 0)),
    }
}

/// The views of the expressions of `s`, from index `i` on.
pub open spec fn view_expr_seq(s: Seq<MathExpr>, i: int) -> Seq<VExpr>
    decreases s, 1int, s.len() - i,
{
    if i < 0 || i >= s.len() {
        Seq::empty()
    } else {
        seq![view_expr(s[i])] + view_expr_seq(s, i + 1)
    }
}

impl View for MathExpr {
    type V = VExpr;

    open spec fn view(&self) -> VExpr {
        view_expr(*self)
    }
}

proof fn lemma_view_expr_seq_index(s: Seq<MathExpr>, i: int)
    requires
        0 <= i <= s.len(),
    ensures
        view_expr_seq(s, i).len() == s.len() - i,
        forall|j: int| 0 <= j < s.len() - i ==> #[trigger] view_expr_seq(s, i)[j] == view_expr(
            s[i + j],
        ),
    decreases s.len() - i,
{
    if i < s.len() {
        lemma_view_expr_seq_index(s, i + 1);
        assert forall|j: int| 0 <= j < s.len() - i implies #[trigger] view_expr_seq(s, i)[j]
            == view_expr(s[i + j]) by {
            if j > 0 {
                assert(view_expr_seq(s, i)[j] == view_expr_seq(s, i + 1)[j - 1]);
                assert(view_expr_seq(s, i + 1)[j - 1] == view_expr(s[i + 1 + (j - 1)]));
            }
        }
    }
}

proof fn lemma_view_exprs_push(s: Seq<MathExpr>, x: MathExpr)
    ensures
        view_expr_seq(s.push(x), 0) == view_expr_seq(s, 0).push(view_expr(x)),
{
    lemma_view_expr_seq_index(s, 0);
    lemma_view_expr_seq_index(s.push(x), 0);
    assert(view_expr_seq(s.push(x), 0) =~= view_expr_seq(s, 0).push(view_expr(x)));
}

/// Well-formedness of an expression: every polynomial leaf in normal form.
pub open spec fn wf_vexpr(e: VExpr) -> bool
    decreases e, 0int, 0int,
{
    match e {
        VExpr::Poly(s) => wf_terms(s),
        VExpr::Product(cs) => wf_vexpr_seq(cs, 0),
        VExpr::Sum(cs) => wf_vexpr_seq(cs, 0),
    }
}

pub open spec fn wf_vexpr_seq(cs: Seq<VExpr>, i: int) -> bool
    decreases cs, 1int, cs.len() - i,
{
    if i < 0 || i >= cs.len() {
        true
    } else {
        wf_vexpr(cs[i]) && wf_vexpr_seq(cs, i + 1)
    }
}

proof fn lemma_wf_vexpr_seq_index(cs: Seq<VExpr>, i: int)
    requires
        0 <= i <= cs.len(),
        wf_vexpr_seq(cs, i),
    ensures
        forall|j: int| i <= j < cs.len() ==> wf_vexpr(#[trigger] cs[j]),
    decreases cs.len() - i,
{
    if i < cs.len() {
        lemma_wf_vexpr_seq_index(cs, i + 1);
    }
}

proof fn lemma_wf_vexpr_seq_push(cs: Seq<VExpr>, x: VExpr, i: int)
    requires
        0 <= i <= cs.len(),
        wf_vexpr_seq(cs, i),
        wf_vexpr(x),
    ensures
        wf_vexpr_seq(cs.push(x), i),
    decreases cs.len() - i,
{
    if i < cs.len() {
        assert(cs.push(x)[i] == cs[i]);
        lemma_wf_vexpr_seq_push(cs, x, i + 1);
    } else {
        assert(cs.push(x)[i] == x);
        assert(wf_vexpr_seq(cs.push(x), i + 1));
    }
}

/// Whether the atom text `a` occurs as an atom leaf of the product tree:
/// what an error that identifies an offending atom points at.
pub open spec fn vprod_has_atom(t: VProd, a: Seq<char>) -> bool
    decreases t, 0int, 0int,
{
    match t {
        VProd::Leaf(tok) => tok == VToken::Atom(a),
        VProd::Children(cs) => vprod_seq_has_atom(cs, 0, a),
        VProd::Product(cs) => vprod_seq_has_atom(cs, 0, a),
    }
}

pub open spec fn vprod_seq_has_atom(cs: Seq<VProd>, i: int, a: Seq<char>) -> bool
    decreases cs, 1int, cs.len() - i,
{
    if i < 0 || i >= cs.len() {
        false
    } else {
        vprod_has_atom(cs[i], a) || vprod_seq_has_atom(cs, i + 1, a)
    }
}

proof fn lemma_vprod_seq_has_atom_at(cs: Seq<VProd>, i: int, j: int, a: Seq<char>)
    requires
        0 <= i <= j < cs.len(),
        vprod_has_atom(cs[j], a),
    ensures
        vprod_seq_has_atom(cs, i, a),
    decreases j - i,
{
    if i < j {
        lemma_vprod_seq_has_atom_at(cs, i + 1, j, a);
    }
}

/// Whether the atom text `a` occurs as an atom leaf of the parenthesis tree.
pub open spec fn vtree_has_atom(t: VTree, a: Seq<char>) -> bool
    decreases t, 0int, 0int,
{
    match t {
        VTree::Leaf(tok) => tok == VToken::Atom(a),
        VTree::Children(cs) => vtree_seq_has_atom(cs, 0, a),
    }
}

pub open spec fn vtree_seq_has_atom(cs: Seq<VTree>, i: int, a: Seq<char>) -> bool
    decreases cs, 1int, cs.len() - i,
{
    if i < 0 || i >= cs.len() {
        false
    } else {
        vtree_has_atom(cs[i], a) || vtree_seq_has_atom(cs, i + 1, a)
    }
}

proof fn lemma_vprod_seq_atom_iff(cs: Seq<VProd>, i: int, a: Seq<char>)
    requires
        0 <= i <= cs.len(),
    ensures
        vprod_seq_has_atom(cs, i, a) <==> exists|j: int|
            i <= j < cs.len() && vprod_has_atom(#[trigger] cs[j], a),
    decreases cs.len() - i,
{
    if i < cs.len() {
        lemma_vprod_seq_atom_iff(cs, i + 1, a);
        if vprod_has_atom(cs[i], a) {
            assert(i <= i < cs.len() && vprod_has_atom(cs[i], a));
        }
    }
}

proof fn lemma_vtree_seq_atom_iff(cs: Seq<VTree>, i: int, a: Seq<char>)
    requires
        0 <= i <= cs.len(),
    ensures
        vtree_seq_has_atom(cs, i, a) <==> exists|j: int|
            i <= j < cs.len() && vtree_has_atom(#[trigger] cs[j], a),
    decreases cs.len() - i,
{
    if i < cs.len() {
        lemma_vtree_seq_atom_iff(cs, i + 1, a);
        if vtree_has_atom(cs[i], a) {
            assert(i <= i < cs.len() && vtree_has_atom(cs[i], a));
        }
    }
}

/// Every atom of the grouped tree is an atom of the parenthesis tree: the
/// product-grouping pass invents no atom text.
proof fn lemma_products_atoms(t: VTree, a: Seq<char>)
    requires
        spec_products(t) is Some,
        vprod_has_atom(spec_products(t).unwrap(), a),
    ensures
        vtree_has_atom(t, a),
    decreases t, 2int, 0int,
{
    match t {
        VTree::Leaf(tok) => {},
        VTree::Children(cs) => {
            let facc = spec_products_fold(cs, 0, Seq::empty()).unwrap();
            assert(vprod_seq_has_atom(Seq::<VProd>::empty(), 0, a) == false);
            lemma_pfold_atoms(cs, 0, Seq::empty(), a);
        },
    }
}

/// As `lemma_products_atoms`, for the fold over one level: an atom of the
/// result was already in the accumulator or stands in the remaining
/// children.
proof fn lemma_pfold_atoms(cs: Seq<VTree>, i: int, acc: Seq<VProd>, a: Seq<char>)
    requires
        spec_products_fold(cs, i, acc) is Some,
        vprod_seq_has_atom(spec_products_fold(cs, i, acc).unwrap(), 0, a),
    ensures
        vprod_seq_has_atom(acc, 0, a) || vtree_seq_has_atom(cs, i, a),
    decreases cs, 1int, cs.len() - i,
{
    if i < 0 || i >= cs.len() {
    } else if cs[i] == VTree::Leaf(VToken::Times) {
        if acc.len() == 0 {
            lemma_pfold_atoms(cs, i + 1, acc, a);
            if vtree_seq_has_atom(cs, i + 1, a) {
                lemma_vtree_seq_atom_iff(cs, i + 1, a);
                lemma_vtree_seq_atom_iff(cs, i, a);
            }
        } else {
            let nxt = spec_products(cs[i + 1]).unwrap();
            let merged = VProd::Product(seq![acc.last(), nxt]);
            let acc2 = acc.drop_last().push(merged);
            lemma_pfold_atoms(cs, i + 2, acc2, a);
            lemma_step_atoms(cs, i, acc, acc2, merged, nxt, i + 1, a);
        }
    } else if cs[i] == VTree::Leaf(VToken::Plus) {
        let acc2 = acc.push(VProd::Leaf(VToken::Plus));
        lemma_pfold_atoms(cs, i + 1, acc2, a);
        if vprod_seq_has_atom(acc2, 0, a) {
            lemma_vprod_seq_atom_iff(acc2, 0, a);
            lemma_vprod_seq_atom_iff(acc, 0, a);
            let j = choose|j: int| 0 <= j < acc2.len() && vprod_has_atom(#[trigger] acc2[j], a);
            assert(j < acc.len() && acc2[j] == acc[j]);
        }
        if vtree_seq_has_atom(cs, i + 1, a) {
            lemma_vtree_seq_atom_iff(cs, i + 1, a);
            lemma_vtree_seq_atom_iff(cs, i, a);
        }
    } else {
        let v = spec_products(cs[i]).unwrap();
        if acc.len() > 0 && acc.last() != VProd::Leaf(VToken::Plus) {
            let merged = VProd::Product(seq![acc.last(), v]);
            let acc2 = acc.drop_last().push(merged);
            lemma_pfold_atoms(cs, i + 1, acc2, a);
            lemma_step_atoms(cs, i, acc, acc2, merged, v, i, a);
        } else {
            let acc2 = acc.push(v);
            lemma_pfold_atoms(cs, i + 1, acc2, a);
            if vprod_seq_has_atom(acc2, 0, a) {
                lemma_vprod_seq_atom_iff(acc2, 0, a);
                lemma_vprod_seq_atom_iff(acc, 0, a);
                let j = choose|j: int|
                    0 <= j < acc2.len() && vprod_has_atom(#[trigger] acc2[j], a);
                if j < acc.len() {
                    assert(acc2[j] == acc[j]);
                } else {
                    assert(acc2[j] == v);
                    lemma_products_atoms(cs[i], a);
                    lemma_vtree_seq_atom_iff(cs, i, a);
                }
            }
            if vtree_seq_has_atom(cs, i + 1, a) {
                lemma_vtree_seq_atom_iff(cs, i + 1, a);
                lemma_vtree_seq_atom_iff(cs, i, a);
            }
        }
    }
}

/// The merge step: an atom of the accumulator after popping the last node
/// and pushing the two-factor product was in the accumulator before, or in
/// the freshly grouped child `cs[src]`.
proof fn lemma_step_atoms(
    cs: Seq<VTree>,
    i: int,
    acc: Seq<VProd>,
    acc2: Seq<VProd>,
    merged: VProd,
    nxt: VProd,
    src: int,
    a: Seq<char>,
)
    requires
        0 <= i <= src < cs.len(),
        acc.len() > 0,
        spec_products(cs[src]) == Some(nxt),
        merged == VProd::Product(seq![acc.last(), nxt]),
        acc2 == acc.drop_last().push(merged),
        vprod_seq_has_atom(acc2, 0, a) || vtree_seq_has_atom(cs, src + 1, a),
    ensures
        vprod_seq_has_atom(acc, 0, a) || vtree_seq_has_atom(cs, i, a),
    decreases cs[src], 3int, 0int,
{
    if vprod_seq_has_atom(acc2, 0, a) {
        lemma_vprod_seq_atom_iff(acc2, 0, a);
        lemma_vprod_seq_atom_iff(acc, 0, a);
        let j = choose|j: int| 0 <= j < acc2.len() && vprod_has_atom(#[trigger] acc2[j], a);
        if j < acc.len() - 1 {
            assert(acc2[j] == acc[j]);
        } else {
            assert(acc2[j] == merged);
            let parts = seq![acc.last(), nxt];
            lemma_vprod_seq_atom_iff(parts, 0, a);
            let w = choose|w: int| 0 <= w < parts.len() && vprod_has_atom(#[trigger] parts[w], a);
            if w == 0 {
                assert(vprod_has_atom(acc[acc.len() - 1], a));
            } else {
                assert(parts[w] == nxt);
                lemma_products_atoms(cs[src], a);
                lemma_vtree_seq_atom_iff(cs, i, a);
            }
        }
    } else {
        lemma_vtree_seq_atom_iff(cs, src + 1, a);
        lemma_vtree_seq_atom_iff(cs, i, a);
    }
}

/// Every atom of the parenthesis tree is an atom token of the input: the
/// tree builder invents no atom text.
proof fn lemma_parse_atoms(toks: Seq<VToken>, i: int, a: Seq<char>)
    requires
        0 <= i <= toks.len(),
        vtree_seq_has_atom(spec_parse(toks, i).1, 0, a),
    ensures
        exists|j: int| 0 <= j < toks.len() && toks[j] == VToken::Atom(a),
    decreases toks.len() - i,
{
    if i < toks.len() && !(toks[i] is CloseParen) {
        lemma_parse_bounds(toks, i);
        let (sub, child): (int, VTree) = if toks[i] is OpenParen {
            let (j0, inner) = spec_parse(toks, i + 1);
            (j0, VTree::Children(inner))
        } else {
            (i + 1, VTree::Leaf(toks[i]))
        };
        let j = if sub <= i {
            i + 1
        } else if sub > toks.len() {
            toks.len() as int
        } else {
            sub
        };
        let rest = spec_parse(toks, j).1;
        let whole = seq![child] + rest;
        assert(spec_parse(toks, i).1 == whole);
        lemma_vtree_seq_atom_iff(whole, 0, a);
        let w = choose|w: int| 0 <= w < whole.len() && vtree_has_atom(#[trigger] whole[w], a);
        if w == 0 {
            assert(vtree_has_atom(child, a));
            if toks[i] is OpenParen {
                lemma_parse_atoms(toks, i + 1, a);
            } else {
                assert(toks[i] == VToken::Atom(a));
            }
        } else {
            assert(whole[w] == rest[w - 1]);
            lemma_vtree_seq_atom_iff(rest, 0, a);
            lemma_parse_atoms(toks, j, a);
        }
    }
}

/// The expression a product tree denotes: atoms become polynomial leaves,
/// `Product` nodes stay products, `Children` levels become sums with the
/// `+` separators dropped. `None` where an atom is out of the grammar or an
/// operator token stands where an operand is expected.
pub open spec fn spec_mathexpr(t: VProd) -> Option<VExpr>
    decreases t, 2int, 0int,
{
    match t {
        VProd::Leaf(tok) => match tok {
            VToken::Atom(a) => match spec_atom(a) {
                Some(terms) => Some(VExpr::Poly(terms)),
                None => None,
            },
            _ => None,
        },
        VProd::Product(cs) => match spec_mathexpr_all(cs, 0) {
            Some(es) => Some(VExpr::Product(es)),
            None => None,
        },
        VProd::Children(cs) => match spec_mathexpr_sum(cs, 0) {
            Some(es) => Some(VExpr::Sum(es)),
            None => None,
        },
    }
}

/// The expressions of a product node's children, all required.
pub open spec fn spec_mathexpr_all(cs: Seq<VProd>, i: int) -> Option<Seq<VExpr>>
    decreases cs, 1int, cs.len() - i,
{
    if i < 0 {
        None
    } else if i >= cs.len() {
        Some(Seq::empty())
    } else {
        match spec_mathexpr(cs[i]) {
            Some(e) => match spec_mathexpr_all(cs, i + 1) {
                Some(rest) => Some(seq![e] + rest),
                None => None,
            },
            None => None,
        }
    }
}

/// The expressions of a sum level's children, `+` separators dropped.
pub open spec fn spec_mathexpr_sum(cs: Seq<VProd>, i: int) -> Option<Seq<VExpr>>
    decreases cs, 1int, cs.len() - i,
{
    if i < 0 {
        None
    } else if i >= cs.len() {
        Some(Seq::empty())
    } else if cs[i] == VProd::Leaf(VToken::Plus) {
        spec_mathexpr_sum(cs, i + 1)
    } else {
        match spec_mathexpr(cs[i]) {
            Some(e) => match spec_mathexpr_sum(cs, i + 1) {
                Some(rest) => Some(seq![e] + rest),
                None => None,
            },
            None => None,
        }
    }
}

/// Build the expression tree of a product tree. Atom errors are reported as
/// `from_str` reports them; an operator leaf standing as an operand is
/// `StrayOperator`.
pub fn make_mathexpr(tp_tree: &TokenProductTree) -> (r: Result<MathExpr, EvalError>)
    ensures
        (r is Ok) == (spec_mathexpr(tp_tree@) is Some),
        r is Ok ==> Some(r->Ok_0@) == spec_mathexpr(tp_tree@) && wf_vexpr(r->Ok_0@),
        r is Err ==> !(r->Err_0 is Overflow) && !(r->Err_0 is MissingOperand),
        (r is Err && r->Err_0 is MalformedAtom) ==> spec_atom(r->Err_0->MalformedAtom_0@)
            is None && vprod_has_atom(tp_tree@, r->Err_0->MalformedAtom_0@),
        (r is Err && r->Err_0 is GeneratorOutOfRange) ==> spec_atom(
            r->Err_0->GeneratorOutOfRange_0@,
        ) is None && gen_big(r->Err_0->GeneratorOutOfRange_0@, 0) && vprod_has_atom(
            tp_tree@,
            r->Err_0->GeneratorOutOfRange_0@,
        ),
    decreases *tp_tree,
{
    match tp_tree {
        TokenProductTree::Leaf(token) => match token {
            Token::String(a) => {
                proof {
                    assert(tp_tree@ == VProd::Leaf(VToken::Atom(a@)));
                    assert(vprod_has_atom(tp_tree@, a@));
                }
                match MajoranaExpr::from_str(a.as_str()) {
                    Ok(p) => Ok(MathExpr::MajoranaExpr(p)),
                    Err(e) => Err(e),
                }
            },
            _ => Err(EvalError::StrayOperator),
        },
        TokenProductTree::Product(vec) => {
            let ghost cs = view_prod_seq(vec@, 0);
            proof {
                lemma_view_prod_seq_index(vec@, 0);
                assert(tp_tree@ == VProd::Product(cs));
            }
            let mut out: Vec<MathExpr> = Vec::new();
            let mut idx: usize = 0;
            proof {
                assert(view_expr_seq(out@, 0) =~= Seq::<VExpr>::empty());
            }
            while idx < vec.len()
                invariant
                    0 <= idx <= vec@.len(),
                    *tp_tree == TokenProductTree::Product(*vec),
                    tp_tree@ == VProd::Product(cs),
                    cs == view_prod_seq(vec@, 0),
                    cs.len() == vec@.len(),
                    forall|j: int| 0 <= j < vec@.len() ==> cs[j] == view_prod(vec@[j]),
                    wf_vexpr_seq(view_expr_seq(out@, 0), 0),
                    spec_mathexpr_all(cs, idx as int) matches Some(rest)
                        ==> spec_mathexpr_all(cs, 0) == Some(view_expr_seq(out@, 0) + rest),
                    spec_mathexpr_all(cs, idx as int) is None ==> spec_mathexpr_all(cs, 0)
                        is None,
                decreases vec@.len() - idx,
            {
                proof {
                    let ghost tt = *tp_tree;
                    assert(tt == TokenProductTree::Product(*vec));
                    assert(decreases_to!(tt => tt->Product_0));
                    assert(decreases_to!(tt->Product_0 => tt->Product_0@));
                    assert(decreases_to!(tt->Product_0@ => tt->Product_0@[idx as int]));
                    assert(decreases_to!(*tp_tree => vec@[idx as int]));
                }
                let e = match make_mathexpr(&vec[idx]) {
                    Ok(e) => e,
                    Err(er) => {
                        proof {
                            if er is MalformedAtom || er is GeneratorOutOfRange {
                                let a: Seq<char> = if er is MalformedAtom {
                                    er->MalformedAtom_0@
                                } else {
                                    er->GeneratorOutOfRange_0@
                                };
                                assert(vprod_has_atom(cs[idx as int], a));
                                lemma_vprod_seq_has_atom_at(cs, 0, idx as int, a);
                            }
                        }
                        return Err(er);
                    },
                };
                let ghost prev = out@;
                out.push(e);
                proof {
                    lemma_view_exprs_push(prev, e);
                    lemma_wf_vexpr_seq_push(view_expr_seq(prev, 0), view_expr(e), 0);
                    if spec_mathexpr_all(cs, idx + 1) is Some {
                        let rest = spec_mathexpr_all(cs, idx + 1).unwrap();
                        assert(view_expr_seq(prev, 0) + (seq![view_expr(e)] + rest)
                            =~= view_expr_seq(out@, 0) + rest);
                    }
                }
                idx = idx + 1;
            }
            proof {
                assert(spec_mathexpr_all(cs, idx as int) == Some(Seq::<VExpr>::empty()));
                assert(view_expr_seq(out@, 0) + Seq::<VExpr>::empty() =~= view_expr_seq(out@, 0));
            }
            Ok(MathExpr::Product(out))
        },
        TokenProductTree::Children(vec) => {
            let ghost cs = view_prod_seq(vec@, 0);
            proof {
                lemma_view_prod_seq_index(vec@, 0);
                assert(tp_tree@ == VProd::Children(cs));
            }
            let mut out: Vec<MathExpr> = Vec::new();
            let mut idx: usize = 0;
            proof {
                assert(view_expr_seq(out@, 0) =~= Seq::<VExpr>::empty());
            }
            while idx < vec.len()
                invariant
                    0 <= idx <= vec@.len(),
                    *tp_tree == TokenProductTree::Children(*vec),
                    tp_tree@ == VProd::Children(cs),
                    cs == view_prod_seq(vec@, 0),
                    cs.len() == vec@.len(),
                    forall|j: int| 0 <= j < vec@.len() ==> cs[j] == view_prod(vec@[j]),
                    wf_vexpr_seq(view_expr_seq(out@, 0), 0),
                    spec_mathexpr_sum(cs, idx as int) matches Some(rest)
                        ==> spec_mathexpr_sum(cs, 0) == Some(view_expr_seq(out@, 0) + rest),
                    spec_mathexpr_sum(cs, idx as int) is None ==> spec_mathexpr_sum(cs, 0)
                        is None,
                decreases vec@.len() - idx,
            {
                if is_plus_leaf(&vec[idx]) {
                    idx = idx + 1;
                } else {
                    proof {
                        let ghost tt = *tp_tree;
                        assert(tt == TokenProductTree::Children(*vec));
                        assert(decreases_to!(tt => tt->Children_0));
                        assert(decreases_to!(tt->Children_0 => tt->Children_0@));
                        assert(decreases_to!(tt->Children_0@ => tt->Children_0@[idx as int]));
                        assert(decreases_to!(*tp_tree => vec@[idx as int]));
                    }
                    let e = match make_mathexpr(&vec[idx]) {
                        Ok(e) => e,
                        Err(er) => {
                            proof {
                                if er is MalformedAtom || er is GeneratorOutOfRange {
                                    let a: Seq<char> = if er is MalformedAtom {
                                        er->MalformedAtom_0@
                                    } else {
                                        er->GeneratorOutOfRange_0@
                                    };
                                    assert(vprod_has_atom(cs[idx as int], a));
                                    lemma_vprod_seq_has_atom_at(cs, 0, idx as int, a);
                                }
                            }
                            return Err(er);
                        },
                    };
                    let ghost prev = out@;
                    out.push(e);
                    proof {
                        lemma_view_exprs_push(prev, e);
                        lemma_wf_vexpr_seq_push(view_expr_seq(prev, 0), view_expr(e), 0);
                        if spec_mathexpr_sum(cs, idx + 1) is Some {
                            let rest = spec_mathexpr_sum(cs, idx + 1).unwrap();
                            assert(view_expr_seq(prev, 0) + (seq![view_expr(e)] + rest)
                                =~= view_expr_seq(out@, 0) + rest);
                        }
                    }
                    idx = idx + 1;
                }
            }
            proof {
                assert(spec_mathexpr_sum(cs, idx as int) == Some(Seq::<VExpr>::empty()));
                assert(view_expr_seq(out@, 0) + Seq::<VExpr>::empty() =~= view_expr_seq(out@, 0));
            }
            Ok(MathExpr::Sum(out))
        },
    }
}

/// The textual form of an expression tree: a polynomial leaf in its normal
/// form, a product's factors joined by ` * ` inside brackets, a sum's terms
/// joined by ` + ` inside parentheses.
pub open spec fn expr_text(e: MathExpr) -> Seq<char>
    decreases e, 0int, 0int,
{
    match e {
        MathExpr::MajoranaExpr(p) => crate::majorana::spec_render(p@),
        MathExpr::Product(v) => seq!['['] + expr_text_seq(v@, 0, seq![' ', '*', ' ']) + seq![']'],
        MathExpr::Sum(v) => seq!['('] + expr_text_seq(v@, 0, seq![' ', '+', ' ']) + seq![')'],
    }
}

pub open spec fn expr_text_seq(s: Seq<MathExpr>, i: int, sep: Seq<char>) -> Seq<char>
    decreases s, 1int, s.len() - i,
{
    if i < 0 || i >= s.len() {
        Seq::empty()
    } else {
        expr_text(s[i]) + (if i + 1 < s.len() {
            sep
        } else {
            Seq::empty()
        }) + expr_text_seq(s, i + 1, sep)
    }
}

fn push_expr_text_seq(v: &Vec<MathExpr>, out: &mut String, times: bool, Ghost(t): Ghost<MathExpr>)
    requires
        t == MathExpr::Product(*v) || t == MathExpr::Sum(*v),
        forall|j: int| 0 <= j < v@.len() ==> wf_vexpr(#[trigger] view_expr(v@[j])),
    ensures
        final(out)@ == old(out)@ + expr_text_seq(
            v@,
            0,
            if times {
                seq![' ', '*', ' ']
            } else {
                seq![' ', '+', ' ']
            },
        ),
    decreases t, 0int,
{
    let ghost sep: Seq<char> = if times {
        seq![' ', '*', ' ']
    } else {
        seq![' ', '+', ' ']
    };
    let mut i: usize = 0;
    while i < v.len()
        invariant
            0 <= i <= v@.len(),
            t == MathExpr::Product(*v) || t == MathExpr::Sum(*v),
            forall|j: int| 0 <= j < v@.len() ==> wf_vexpr(#[trigger] view_expr(v@[j])),
            sep == if times {
                seq![' ', '*', ' ']
            } else {
                seq![' ', '+', ' ']
            },
            out@ + expr_text_seq(v@, i as int, sep) == old(out)@ + expr_text_seq(v@, 0, sep),
        decreases v@.len() - i,
    {
        let ghost pre = out@;
        proof {
            let ghost tt = t;
            if tt is Product {
                assert(decreases_to!(tt => tt->Product_0));
                assert(decreases_to!(tt->Product_0 => tt->Product_0@));
                assert(decreases_to!(tt->Product_0@ => tt->Product_0@[i as int]));
            } else {
                assert(decreases_to!(tt => tt->Sum_0));
                assert(decreases_to!(tt->Sum_0 => tt->Sum_0@));
                assert(decreases_to!(tt->Sum_0@ => tt->Sum_0@[i as int]));
            }
            assert(decreases_to!(t => v@[i as int]));
        }
        push_expr_text(&v[i], out);
        if i + 1 < v.len() {
            if times {
                proof {
                    reveal_strlit(" * ");
                }
                out.append(" * ");
                proof {
                    assert(" * "@ =~= sep);
                }
            } else {
                proof {
                    reveal_strlit(" + ");
                }
                out.append(" + ");
                proof {
                    assert(" + "@ =~= sep);
                }
            }
        }
        proof {
            assert(out@ + expr_text_seq(v@, i + 1, sep) =~= pre + expr_text_seq(
                v@,
                i as int,
                sep,
            ));
        }
        i = i + 1;
    }
    proof {
        assert(expr_text_seq(v@, i as int, sep) =~= Seq::<char>::empty());
        assert(out@ + Seq::<char>::empty() =~= out@);
    }
}

fn push_expr_text(e: &MathExpr, out: &mut String)
    requires
        wf_vexpr(e@),
    ensures
        final(out)@ == old(out)@ + expr_text(*e),
    decreases *e, 1int,
{
    match e {
        MathExpr::MajoranaExpr(p) => {
            let s = p.render();
            out.append(s.as_str());
        },
        MathExpr::Product(v) => {
            proof {
                reveal_strlit("[");
                reveal_strlit("]");
                lemma_view_expr_seq_index(v@, 0);
                lemma_wf_vexpr_seq_index(view_expr_seq(v@, 0), 0);
                assert forall|j: int| 0 <= j < v@.len() implies wf_vexpr(
                    #[trigger] view_expr(v@[j]),
                ) by {
                    assert(wf_vexpr(view_expr_seq(v@, 0)[j]));
                }
            }
            out.append("[");
            push_expr_text_seq(v, out, true, Ghost(*e));
            out.append("]");
            proof {
                assert(out@ =~= old(out)@ + (seq!['['] + expr_text_seq(v@, 0, seq![' ', '*', ' '])
                    + seq![']']));
            }
        },
        MathExpr::Sum(v) => {
            proof {
                reveal_strlit("(");
                reveal_strlit(")");
                lemma_view_expr_seq_index(v@, 0);
                lemma_wf_vexpr_seq_index(view_expr_seq(v@, 0), 0);
                assert forall|j: int| 0 <= j < v@.len() implies wf_vexpr(
                    #[trigger] view_expr(v@[j]),
                ) by {
                    assert(wf_vexpr(view_expr_seq(v@, 0)[j]));
                }
            }
            out.append("(");
            push_expr_text_seq(v, out, false, Ghost(*e));
            out.append(")");
            proof {
                assert(out@ =~= old(out)@ + (seq!['('] + expr_text_seq(v@, 0, seq![' ', '+', ' '])
                    + seq![')']));
            }
        },
    }
}

impl MathExpr {
    /// The textual form of the expression tree.
    pub fn render(&self) -> (r: String)
        requires
            wf_vexpr(self@),
        ensures
            r@ == expr_text(*self),
    {
        let mut out = String::new();
        push_expr_text(self, &mut out);
        proof {
            assert(Seq::<char>::empty() + expr_text(*self) =~= expr_text(*self));
        }
        out
    }
}

/// Evaluation of an expression: a sum's children are folded by polynomial
/// addition from the zero polynomial, a product's by polynomial
/// multiplication from the identity. `None` exactly where a coefficient
/// leaves the `i64` range.
pub open spec fn spec_eval(e: VExpr) -> Option<Seq<Term>>
    decreases e, 2int, 0int,
{
    match e {
        VExpr::Poly(s) => Some(s),
        VExpr::Sum(cs) => spec_eval_sum(cs, 0, Seq::empty()),
        VExpr::Product(cs) => spec_eval_prod(cs, 0, identity_poly()),
    }
}

pub open spec fn spec_eval_sum(cs: Seq<VExpr>, i: int, acc: Seq<Term>) -> Option<Seq<Term>>
    decreases cs, 1int, cs.len() - i,
{
    if i < 0 {
        None
    } else if i >= cs.len() {
        Some(acc)
    } else {
        match spec_eval(cs[i]) {
            Some(v) => match sadd(acc, v) {
                Some(a2) => spec_eval_sum(cs, i + 1, a2),
                None => None,
            },
            None => None,
        }
    }
}

pub open spec fn spec_eval_prod(cs: Seq<VExpr>, i: int, acc: Seq<Term>) -> Option<Seq<Term>>
    decreases cs, 1int, cs.len() - i,
{
    if i < 0 {
        None
    } else if i >= cs.len() {
        Some(acc)
    } else {
        match spec_eval(cs[i]) {
            Some(v) => match spoly_mul(acc, v) {
                Some(a2) => spec_eval_prod(cs, i + 1, a2),
                None => None,
            },
            None => None,
        }
    }
}

impl MathExpr {
    fn eval_ref(&self) -> (r: Result<MajoranaExpr, EvalError>)
        requires
            wf_vexpr(self@),
        ensures
            (r is Ok) == (spec_eval(self@) is Some),
            r is Ok ==> Some(r->Ok_0@) == spec_eval(self@) && r->Ok_0.wf(),
            r is Err ==> r->Err_0 is Overflow,
        decreases *self,
    {
        match self {
            MathExpr::MajoranaExpr(p) => {
                let c = p.duplicate();
                proof {
                    assert(self@ == VExpr::Poly(p@));
                }
                Ok(c)
            },
            MathExpr::Sum(vec) => {
                let ghost ves = view_expr_seq(vec@, 0);
                proof {
                    lemma_view_expr_seq_index(vec@, 0);
                    assert(self@ == VExpr::Sum(ves));
                    lemma_wf_vexpr_seq_index(ves, 0);
                }
                let mut acc = MajoranaExpr::new();
                let mut i: usize = 0;
                while i < vec.len()
                    invariant
                        0 <= i <= vec@.len(),
                        *self == MathExpr::Sum(*vec),
                        self@ == VExpr::Sum(ves),
                        ves == view_expr_seq(vec@, 0),
                        ves.len() == vec@.len(),
                        forall|j: int| 0 <= j < vec@.len() ==> ves[j] == view_expr(vec@[j]),
                        forall|j: int| 0 <= j < ves.len() ==> wf_vexpr(#[trigger] ves[j]),
                        acc.wf(),
                        spec_eval_sum(ves, i as int, acc@) == spec_eval_sum(ves, 0, Seq::empty()),
                    decreases vec@.len() - i,
                {
                    proof {
                        let ghost tt = *self;
                        assert(tt == MathExpr::Sum(*vec));
                        assert(decreases_to!(tt => tt->Sum_0));
                        assert(decreases_to!(tt->Sum_0 => tt->Sum_0@));
                        assert(decreases_to!(tt->Sum_0@ => tt->Sum_0@[i as int]));
                        assert(decreases_to!(*self => vec@[i as int]));
                    }
                    let v = match vec[i].eval_ref() {
                        Ok(v) => v,
                        Err(e) => {
                            return Err(e);
                        },
                    };
                    let acc2 = match acc.add(&v) {
                        Ok(a) => a,
                        Err(e) => {
                            return Err(e);
                        },
                    };
                    acc = acc2;
                    i = i + 1;
                }
                Ok(acc)
            },
            MathExpr::Product(vec) => {
                let ghost ves = view_expr_seq(vec@, 0);
                proof {
                    lemma_view_expr_seq_index(vec@, 0);
                    assert(self@ == VExpr::Product(ves));
                    lemma_wf_vexpr_seq_index(ves, 0);
                }
                let mut acc = MajoranaExpr::one();
                let mut i: usize = 0;
                while i < vec.len()
                    invariant
                        0 <= i <= vec@.len(),
                        *self == MathExpr::Product(*vec),
                        self@ == VExpr::Product(ves),
                        ves == view_expr_seq(vec@, 0),
                        ves.len() == vec@.len(),
                        forall|j: int| 0 <= j < vec@.len() ==> ves[j] == view_expr(vec@[j]),
                        forall|j: int| 0 <= j < ves.len() ==> wf_vexpr(#[trigger] ves[j]),
                        acc.wf(),
                        spec_eval_prod(ves, i as int, acc@) == spec_eval_prod(
                            ves,
                            0,
                            identity_poly(),
                        ),
                    decreases vec@.len() - i,
                {
                    proof {
                        let ghost tt = *self;
                        assert(tt == MathExpr::Product(*vec));
                        assert(decreases_to!(tt => tt->Product_0));
                        assert(decreases_to!(tt->Product_0 => tt->Product_0@));
                        assert(decreases_to!(tt->Product_0@ => tt->Product_0@[i as int]));
                        assert(decreases_to!(*self => vec@[i as int]));
                    }
                    let v = match vec[i].eval_ref() {
                        Ok(v) => v,
                        Err(e) => {
                            return Err(e);
                        },
                    };
                    let acc2 = match acc.mul(&v) {
                        Ok(a) => a,
                        Err(e) => {
                            return Err(e);
                        },
                    };
                    acc = acc2;
                    i = i + 1;
                }
                Ok(acc)
            },
        }
    }

    /// Reduce the expression to its normal form, or report the coefficient
    /// overflow that prevents it.
    pub fn eval(self) -> (r: Result<MajoranaExpr, EvalError>)
        requires
            wf_vexpr(self@),
        ensures
            (r is Ok) == (spec_eval(self@) is Some),
            r is Ok ==> Some(r->Ok_0@) == spec_eval(self@) && r->Ok_0.wf(),
            r is Err ==> r->Err_0 is Overflow,
    {
        (&self).eval_ref()
    }
}

/// The whole pipeline on one input line: tokenize, group parentheses, group
/// products, build the expression, evaluate.
pub open spec fn spec_eval_line(s: Seq<char>) -> Option<Seq<Term>> {
    let toks = spec_tokenize(s);
    let tree = VTree::Children(spec_parse(toks, 0).1);
    match spec_products(tree) {
        Some(pt) => match spec_mathexpr(pt) {
            Some(e) => spec_eval(e),
            None => None,
        },
        None => None,
    }
}

/// Evaluate one input line to the normal form of its value, or report the
/// first error: a malformed atom, a generator index of 64 or more, a `*`
/// with a missing operand, a stray operator, or a coefficient overflow.
pub fn eval(s: &str) -> (r: Result<MajoranaExpr, EvalError>)
    ensures
        (r is Ok) == (spec_eval_line(s@) is Some),
        r is Ok ==> Some(r->Ok_0@) == spec_eval_line(s@) && r->Ok_0.wf(),
        spec_products(VTree::Children(spec_parse(spec_tokenize(s@), 0).1)) is None ==> r is Err
            && r->Err_0 is MissingOperand,
        (spec_products(VTree::Children(spec_parse(spec_tokenize(s@), 0).1)) matches Some(pt)
            && spec_mathexpr(pt) is None) ==> r is Err && !(r->Err_0 is Overflow) && !(
        r->Err_0 is MissingOperand),
        (spec_products(VTree::Children(spec_parse(spec_tokenize(s@), 0).1)) matches Some(pt)
            && spec_mathexpr(pt) is Some && spec_eval_line(s@) is None) ==> r is Err && r->Err_0
            is Overflow,
        (r is Err && r->Err_0 is MalformedAtom) ==> (spec_products(
            VTree::Children(spec_parse(spec_tokenize(s@), 0).1),
        ) matches Some(pt) && spec_atom(r->Err_0->MalformedAtom_0@) is None && vprod_has_atom(
            pt,
            r->Err_0->MalformedAtom_0@,
        )),
        (r is Err && r->Err_0 is GeneratorOutOfRange) ==> (spec_products(
            VTree::Children(spec_parse(spec_tokenize(s@), 0).1),
        ) matches Some(pt) && spec_atom(r->Err_0->GeneratorOutOfRange_0@) is None && gen_big(
            r->Err_0->GeneratorOutOfRange_0@,
            0,
        ) && vprod_has_atom(pt, r->Err_0->GeneratorOutOfRange_0@)),
        (r is Err && r->Err_0 is MalformedAtom) ==> exists|j: int|
            0 <= j < spec_tokenize(s@).len() && spec_tokenize(s@)[j] == VToken::Atom(
                r->Err_0->MalformedAtom_0@,
            ),
        (r is Err && r->Err_0 is GeneratorOutOfRange) ==> exists|j: int|
            0 <= j < spec_tokenize(s@).len() && spec_tokenize(s@)[j] == VToken::Atom(
                r->Err_0->GeneratorOutOfRange_0@,
            ),
{
    let toks = tokenize(s);
    let tree = make_tree(toks);
    let pt = match make_products(&tree) {
        Ok(t) => t,
        Err(e) => {
            return Err(e);
        },
    };
    let me = match make_mathexpr(&pt) {
        Ok(m) => m,
        Err(e) => {
            proof {
                if e is MalformedAtom || e is GeneratorOutOfRange {
                    let a: Seq<char> = if e is MalformedAtom {
                        e->MalformedAtom_0@
                    } else {
                        e->GeneratorOutOfRange_0@
                    };
                    let vtoks = spec_tokenize(s@);
                    let vtree = VTree::Children(spec_parse(vtoks, 0).1);
                    assert(tree@ == vtree);
                    assert(vprod_has_atom(pt@, a));
                    lemma_products_atoms(vtree, a);
                    lemma_parse_atoms(vtoks, 0, a);
                }
            }
            return Err(e);
        },
    };
    me.eval()
}

} // verus!
