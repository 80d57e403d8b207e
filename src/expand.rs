use vstd::prelude::*;
use crate::classify::{rewrite_form, rewrite_subform};
use crate::token::{
    call_site_ident, call_site_punct, continues_chain, is_punct, is_punct_char, lemma_push_drop_last,
    lemma_trees_view, lemma_trees_view_add, lemma_trees_view_push, placeholder, placeholder_ident,
    token_continues_chain, tree_view, trees_view, Delimiter, Group, Spacing, Span, Tok, TokenTree,
};

verus! {

/// The state of the scan over one token sequence: the output so far, the
/// pending expression chain, and whether the last token was a `.`.
pub type ScanState = (Seq<Tok>, Seq<Tok>, bool);

pub open spec fn initial_state() -> ScanState {
    (seq![], seq![], false)
}

pub open spec fn semi() -> Tok {
    Tok::Punct(';', Spacing::Alone, Span::CallSite)
}

/// `let mut it = receiver;`
pub open spec fn binding(receiver: Seq<Tok>) -> Seq<Tok> {
    seq![
        Tok::Ident(seq!['l', 'e', 't'], Span::CallSite),
        Tok::Ident(seq!['m', 'u', 't'], Span::CallSite),
        placeholder(),
        Tok::Punct('=', Spacing::Alone, Span::CallSite),
    ] + receiver + seq![semi()]
}

/// The forms of a sugar body: its tokens cut at each top-level comma. There is
/// always at least one form; a trailing comma leaves an empty last form.
pub open spec fn split_forms(s: Seq<Tok>) -> Seq<Seq<Tok>>
    decreases s.len(),
{
    if s.len() == 0 {
        seq![seq![]]
    } else {
        let parts = split_forms(s.drop_last());
        if is_punct(s.last(), ',') {
            parts.push(seq![])
        } else {
            parts.update(parts.len() - 1, parts.last().push(s.last()))
        }
    }
}

/// The rewritten forms, separated by `;`, with none after the last so that
/// the block's value is that of the last form.
pub open spec fn join_forms(parts: Seq<Seq<Tok>>) -> Seq<Tok>
    decreases parts.len(),
{
    if parts.len() == 0 {
        seq![]
    } else if parts.len() == 1 {
        rewrite_form(parts[0])
    } else {
        join_forms(parts.drop_last()) + seq![semi()] + rewrite_form(parts.last())
    }
}

pub open spec fn statements(body: Seq<Tok>) -> Seq<Tok> {
    join_forms(split_forms(body))
}

/// What `receiver.[body]` becomes, for a body group with the tokens `body` and
/// the span `span`. An empty body gives an empty block, and the receiver is
/// dropped. Otherwise the block binds the receiver to the placeholder and
/// holds one statement per form of the expanded body.
pub open spec fn sugar_block(receiver: Seq<Tok>, body: Seq<Tok>, span: Span) -> Tok
    decreases body, 2int,
{
    if body.len() == 0 {
        Tok::Group(Delimiter::Brace, seq![], span)
    } else {
        Tok::Group(Delimiter::Brace, binding(receiver) + statements(expand(body)), span)
    }
}

/// A token outside the notation: a group keeps its brackets and span and has
/// its inside expanded; any other token stays as it is.
pub open spec fn expand_token(t: Tok) -> Tok
    decreases t, 2int,
{
    match t {
        Tok::Group(delimiter, stream, span) => Tok::Group(delimiter, expand(stream), span),
        _ => t,
    }
}

/// One step of the scan. A group right after a `.` is a sugar body: the `.`
/// leaves the pending chain, what remains is the receiver, and the block that
/// replaces them starts a new chain. Any other token is expanded, joins the
/// pending chain, and the chain goes to the output when the token does not
/// continue it.
pub open spec fn step(st: ScanState, t: Tok) -> ScanState
    decreases t, 3int,
{
    let (out, pending, after_dot) = st;
    match t {
        Tok::Group(_, body, span) if after_dot => {
            (out, seq![sugar_block(pending.drop_last(), body, span)], false)
        },
        _ => {
            let u = expand_token(t);
            let chain = pending.push(u);
            if continues_chain(pending, u) {
                (out, chain, is_punct(t, '.'))
            } else {
                (out + chain, seq![], is_punct(t, '.'))
            }
        },
    }
}

/// The state after scanning `s` from `st`.
pub open spec fn run_from(st: ScanState, s: Seq<Tok>) -> ScanState
    decreases s, 0int,
{
    if s.len() == 0 {
        st
    } else {
        step(run_from(st, s.drop_last()), s.last())
    }
}

/// The expansion of a token sequence: the output of the scan, followed by
/// the chain still pending at its end.
pub open spec fn expand(s: Seq<Tok>) -> Seq<Tok>
    decreases s, 1int,
{
    let st = run_from(initial_state(), s);
    st.0 + st.1
}

/// `let mut it = receiver;`
fn binding_tokens(receiver: Vec<TokenTree>) -> (r: Vec<TokenTree>)
    ensures
        trees_view(r@) == binding(trees_view(receiver@)),
{
    proof {
        reveal_strlit("let");
        reveal_strlit("mut");
        assert("let"@ =~= seq!['l', 'e', 't']);
        assert("mut"@ =~= seq!['m', 'u', 't']);
    }
    let mut r: Vec<TokenTree> = Vec::new();
    r.push(call_site_ident("let"));
    r.push(call_site_ident("mut"));
    r.push(placeholder_ident());
    r.push(call_site_punct('='));
    let mut receiver = receiver;
    let ghost rec = receiver@;
    r.append(&mut receiver);
    r.push(call_site_punct(';'));
    proof {
        lemma_trees_view(r@);
        lemma_trees_view(rec);
        assert(trees_view(r@) =~= binding(trees_view(rec)));
    }
    r
}

/// The statements of an expanded sugar body (see `statements`).
fn body_statements(body: Vec<TokenTree>) -> (r: Vec<TokenTree>)
    ensures
        trees_view(r@) == statements(trees_view(body@)),
{
    let ghost s = body@;
    let mut out: Vec<TokenTree> = Vec::new();
    let mut current: Vec<TokenTree> = Vec::new();
    for t in iter: body.into_iter()
        invariant
            iter.seq() == s,
            split_forms(trees_view(s.take(iter.index()))).len() >= 1,
            trees_view(current@) == split_forms(trees_view(s.take(iter.index()))).last(),
            split_forms(trees_view(s.take(iter.index()))).len() == 1 ==> out@.len() == 0,
            split_forms(trees_view(s.take(iter.index()))).len() > 1 ==> trees_view(out@) == join_forms(
                split_forms(trees_view(s.take(iter.index()))).drop_last(),
            ) + seq![semi()],
    {
        let ghost i = iter.index();
        let ghost parts = split_forms(trees_view(s.take(i)));
        proof {
            lemma_trees_view_push(s.take(i), s[i]);
            assert(s.take(i + 1) =~= s.take(i).push(s[i]));
            lemma_push_drop_last(trees_view(s.take(i)), tree_view(s[i]));
        }
        if is_punct_char(&t, ',') {
            let mut form = rewrite_subform(current);
            current = Vec::new();
            let ghost before = out@;
            let ghost fs = form@;
            out.append(&mut form);
            let semicolon = call_site_punct(';');
            proof {
                lemma_trees_view_add(before, fs);
                lemma_push_drop_last(parts, seq![]);
                lemma_trees_view(current@);
                if parts.len() == 1 {
                    assert(trees_view(before) =~= seq![]);
                }
            }
            proof {
                lemma_trees_view_push(out@, semicolon);
            }
            out.push(semicolon);
        } else {
            proof {
                lemma_trees_view_push(current@, t);
                assert(parts.update(parts.len() - 1, parts.last().push(tree_view(t))).drop_last() =~= parts.drop_last());
            }
            current.push(t);
        }
    }
    proof {
        assert(s.take(s.len() as int) =~= s);
    }
    let ghost parts = split_forms(trees_view(s));
    let ghost before = out@;
    let mut last = rewrite_subform(current);
    let ghost ls = last@;
    out.append(&mut last);
    proof {
        lemma_trees_view_add(before, ls);
        if parts.len() == 1 {
            assert(trees_view(before) =~= seq![]);
        }
    }
    out
}


/// What `receiver.[body]` becomes (see `sugar_block`).
pub fn rewrite_sugar(receiver: Vec<TokenTree>, body: Group) -> (r: TokenTree)
    ensures
        r@ == sugar_block(trees_view(receiver@), trees_view(body.stream@), body.span),
    decreases body,
{
    let Group { delimiter: _, stream, span } = body;
    if stream.len() == 0 {
        let empty: Vec<TokenTree> = Vec::new();
        proof {
            lemma_trees_view(stream@);
            lemma_trees_view(empty@);
            assert(trees_view(empty@) =~= seq![]);
        }
        return TokenTree::Group(Group { delimiter: Delimiter::Brace, stream: empty, span });
    }
    proof {
        lemma_trees_view(stream@);
    }
    let mut block = binding_tokens(receiver);
    let expanded = extdot(stream);
    let mut stmts = body_statements(expanded);
    let ghost b = block@;
    let ghost st = stmts@;
    block.append(&mut stmts);
    proof {
        lemma_trees_view_add(b, st);
    }
    TokenTree::Group(Group { delimiter: Delimiter::Brace, stream: block, span })
}

/// Adds `t` to the pending chain, and moves the chain to the output when `t`
/// does not continue it.
fn push_token(out: &mut Vec<TokenTree>, pending: &mut Vec<TokenTree>, t: TokenTree)
    ensures
        ({
            let chain = trees_view(old(pending)@).push(t@);
            if continues_chain(trees_view(old(pending)@), t@) {
                trees_view(final(out)@) == trees_view(old(out)@) && trees_view(final(pending)@) == chain
            } else {
                trees_view(final(out)@) == trees_view(old(out)@) + chain && trees_view(final(pending)@) == Seq::<Tok>::empty()
            }
        }),
{
    let cont = token_continues_chain(pending, &t);
    proof {
        lemma_trees_view_push(pending@, t);
    }
    pending.push(t);
    if !cont {
        let ghost o = out@;
        let ghost p = pending@;
        out.append(pending);
        proof {
            lemma_trees_view_add(o, p);
            lemma_trees_view(pending@);
            assert(trees_view(pending@) =~= seq![]);
        }
    }
}

/// Expands every use of the notation in `tokens`, at any depth (see `expand`).
pub fn extdot(tokens: Vec<TokenTree>) -> (r: Vec<TokenTree>)
    ensures
        trees_view(r@) == expand(trees_view(tokens@)),
    decreases tokens,
{
    let ghost s = tokens@;
    let mut out: Vec<TokenTree> = Vec::new();
    let mut pending: Vec<TokenTree> = Vec::new();
    let mut after_dot = false;
    proof {
        lemma_trees_view(out@);
        assert(trees_view(out@) =~= seq![]);
        assert(trees_view(s.take(0)) =~= seq![]) by {
            lemma_trees_view(s.take(0));
        }
    }
    for t in iter: tokens.into_iter()
        invariant
            iter.seq() == s,
            after_dot ==> trees_view(pending@).len() > 0,
            (trees_view(out@), trees_view(pending@), after_dot) == run_from(
                initial_state(),
                trees_view(s.take(iter.index())),
            ),
    {
        let ghost i = iter.index();
        let ghost prev = (trees_view(out@), trees_view(pending@), after_dot);
        proof {
            lemma_trees_view_push(s.take(i), s[i]);
            assert(s.take(i + 1) =~= s.take(i).push(s[i]));
            lemma_push_drop_last(trees_view(s.take(i)), tree_view(s[i]));
            assert(decreases_to!(tokens => s[i]));
        }
        match t {
            TokenTree::Group(group) => {
                if after_dot {
                    let ghost po = pending@;
                    let mut receiver = pending;
                    receiver.pop();
                    proof {
                        lemma_trees_view(po);
                        assert(po =~= receiver@.push(po.last()));
                        lemma_trees_view_push(receiver@, po.last());
                        lemma_push_drop_last(trees_view(receiver@), tree_view(po.last()));
                    }
                    let block = rewrite_sugar(receiver, group);
                    pending = Vec::new();
                    proof {
                        lemma_trees_view_push(pending@, block);
                        lemma_trees_view(pending@);
                    }
                    pending.push(block);
                    after_dot = false;
                    assert(trees_view(pending@) =~= seq![block@]);
                    assert((trees_view(out@), trees_view(pending@), after_dot) == step(prev, tree_view(s[i])));
                } else {
                    let Group { delimiter, stream, span } = group;
                    let stream = extdot(stream);
                    let u = TokenTree::Group(Group { delimiter, stream, span });
                    assert(u@ == expand_token(tree_view(s[i])));
                    push_token(&mut out, &mut pending, u);
                    after_dot = false;
                    assert((trees_view(out@), trees_view(pending@), after_dot) == step(prev, tree_view(s[i])));
                }
            },
            other => {
                after_dot = is_punct_char(&other, '.');
                assert(other@ == expand_token(tree_view(s[i])));
                push_token(&mut out, &mut pending, other);
                assert((trees_view(out@), trees_view(pending@), after_dot) == step(prev, tree_view(s[i])));
            },
        }
    }
    proof {
        assert(s.take(s.len() as int) =~= s);
    }
    let ghost o = out@;
    let ghost p = pending@;
    out.append(&mut pending);
    proof {
        lemma_trees_view_add(o, p);
    }
    out
}

/// Expands `tokens` for a place where one expression is needed: the result is
/// a single block holding the expansion.
pub fn expr(tokens: Vec<TokenTree>) -> (r: Vec<TokenTree>)
    ensures
        r@.len() == 1,
        r@[0]@ == Tok::Group(Delimiter::Brace, expand(trees_view(tokens@)), Span::CallSite),
{
    let stream = extdot(tokens);
    let mut r: Vec<TokenTree> = Vec::new();
    r.push(TokenTree::Group(Group { delimiter: Delimiter::Brace, stream, span: Span::CallSite }));
    r
}

/// Expands `tokens` for a place where a sequence of items is needed: the
/// result is the expansion itself.
pub fn item(tokens: Vec<TokenTree>) -> (r: Vec<TokenTree>)
    ensures
        trees_view(r@) == expand(trees_view(tokens@)),
{
    extdot(tokens)
}


/// The spans of the empty sugar bodies in `s`, at any depth, in order. Each
/// one earns the pass's single warning: its receiver is dropped unevaluated.
pub open spec fn empty_bodies(s: Seq<Tok>) -> Seq<Span>
    decreases s, 0int,
{
    if s.len() == 0 {
        seq![]
    } else {
        empty_bodies(s.drop_last()) + token_empty_bodies(s.drop_last(), s.last())
    }
}

/// The empty sugar bodies found at `t`, which follows the tokens `before`.
pub open spec fn token_empty_bodies(before: Seq<Tok>, t: Tok) -> Seq<Span>
    decreases t, 1int,
{
    match t {
        Tok::Group(_, stream, span) => {
            if stream.len() == 0 && before.len() > 0 && is_punct(before.last(), '.') {
                seq![span]
            } else {
                empty_bodies(stream)
            }
        },
        _ => seq![],
    }
}

/// The spans of the empty sugar bodies in `tokens` (see `empty_bodies`), for
/// the caller to warn about.
pub fn find_empty_bodies(tokens: &Vec<TokenTree>) -> (r: Vec<Span>)
    ensures
        r@ == empty_bodies(trees_view(tokens@)),
    decreases tokens,
{
    let ghost s = trees_view(tokens@);
    proof {
        lemma_trees_view(tokens@);
        assert(s.take(0) =~= seq![]);
    }
    let mut r: Vec<Span> = Vec::new();
    let mut i: usize = 0;
    while i < tokens.len()
        invariant
            i <= tokens.len(),
            s == trees_view(tokens@),
            s.len() == tokens@.len(),
            forall|j: int| 0 <= j < tokens@.len() ==> #[trigger] s[j] == tree_view(tokens@[j]),
            r@ == empty_bodies(s.take(i as int)),
        decreases tokens.len() - i,
    {
        proof {
            assert(s.take(i + 1).drop_last() =~= s.take(i as int));
            assert(s.take(i + 1).last() == s[i as int]);
            assert(decreases_to!(tokens => tokens@[i as int]));
        }
        let ghost w = token_empty_bodies(s.take(i as int), s[i as int]);
        let ghost before = r@;
        assert(empty_bodies(s.take(i + 1)) == empty_bodies(s.take(i as int)) + w);
        if let TokenTree::Group(group) = &tokens[i] {
            let after_dot = i > 0 && is_punct_char(&tokens[i - 1], '.');
            proof {
                if i > 0 {
                    assert(s.take(i as int).last() == s[i - 1]);
                }
            }
            if group.stream.len() == 0 && after_dot {
                r.push(group.span);
                proof {
                    lemma_trees_view(group.stream@);
                }
            } else {
                proof {
                    lemma_trees_view(group.stream@);
                }
                let mut inner = find_empty_bodies(&group.stream);
                r.append(&mut inner);
            }
        }
        proof {
            if !(s[i as int] is Group) {
                assert(w =~= seq![]);
            }
            assert(r@ =~= before + w);
        }
        i = i + 1;
    }
    proof {
        assert(s.take(s.len() as int) =~= s);
    }
    r
}

} // verus!
