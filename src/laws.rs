use vstd::prelude::*;
use crate::classify::{
    dot, first_call, is_plain_name, lemma_mentions_any, mentions_any, placeholder_args, rewrite_form,
    substitute_all,
};
use crate::expand::{
    binding, join_forms, expand, expand_token, initial_state, run_from, semi, split_forms, statements, step,
    sugar_block, ScanState,
};
use crate::token::{
    continues_chain, is_punct, lemma_push_drop_last, placeholder, placeholder_name, Delimiter, Span, Tok,
};

verus! {

/// No `.` stands right before a group in `s`, so no sugar starts at this level.
pub open spec fn no_sugar_here(s: Seq<Tok>) -> bool {
    forall|i: int| 1 <= i < s.len() ==> !(is_punct(s[i - 1], '.') && #[trigger] s[i] is Group)
}

/// `t` holds no use of the notation, at any depth.
pub open spec fn sugar_free(t: Tok) -> bool
    decreases t, 1int,
{
    match t {
        Tok::Group(_, stream, _) => sugar_free_all(stream),
        _ => true,
    }
}

/// `s` holds no use of the notation, at any depth.
pub open spec fn sugar_free_all(s: Seq<Tok>) -> bool
    decreases s, 0int,
{
    no_sugar_here(s) && forall|i: int| 0 <= i < s.len() ==> sugar_free(#[trigger] s[i])
}

/// Each token of `r` continues the chain of the tokens before it.
pub open spec fn is_chain(r: Seq<Tok>) -> bool {
    forall|i: int| 0 <= i < r.len() ==> continues_chain(r.take(i), #[trigger] r[i])
}

/// No top-level comma in `s`.
pub open spec fn comma_free(s: Seq<Tok>) -> bool {
    forall|i: int| 0 <= i < s.len() ==> !is_punct(#[trigger] s[i], ',')
}

/// Recursion transparency: where no sugar starts at the top level of `s`,
/// its expansion is `s` token by token, each group kept with its brackets
/// and span and with its inside expanded.
pub proof fn law_transparent(s: Seq<Tok>)
    requires
        no_sugar_here(s),
    ensures
        expand(s) == s.map_values(|t: Tok| expand_token(t)),
{
    lemma_transparent_scan(s);
}

proof fn lemma_transparent_scan(s: Seq<Tok>)
    requires
        no_sugar_here(s),
    ensures
        ({
            let st = run_from(initial_state(), s);
            &&& st.0 + st.1 == s.map_values(|t: Tok| expand_token(t))
            &&& st.2 == (s.len() > 0 && is_punct(s.last(), '.'))
        }),
    decreases s.len(),
{
    if s.len() == 0 {
        assert(s.map_values(|t: Tok| expand_token(t)) =~= seq![]);
    } else {
        let p = s.drop_last();
        let t = s.last();
        assert(no_sugar_here(p)) by {
            assert forall|i: int| 1 <= i < p.len() implies !(is_punct(p[i - 1], '.') && #[trigger] p[i] is Group) by {
                assert(p[i] == s[i] && p[i - 1] == s[i - 1]);
            }
        }
        lemma_transparent_scan(p);
        let prev = run_from(initial_state(), p);
        if prev.2 {
            assert(s[s.len() - 2] == p.last());
            assert(!(s[s.len() - 1] is Group));
        }
        assert(s.map_values(|t: Tok| expand_token(t)) =~= p.map_values(|t: Tok| expand_token(t)).push(expand_token(t)));
        let u = expand_token(t);
        assert(step(prev, t).0 + step(prev, t).1 =~= prev.0 + prev.1 + seq![u]);
    }
}

/// An expansion with nothing to expand changes nothing.
proof fn lemma_identity(t: Tok)
    requires
        sugar_free(t),
    ensures
        expand_token(t) == t,
    decreases t, 1int,
{
    if let Tok::Group(delimiter, stream, span) = t {
        lemma_identity_all(stream);
    }
}

proof fn lemma_identity_all(s: Seq<Tok>)
    requires
        sugar_free_all(s),
    ensures
        expand(s) == s,
        s.map_values(|t: Tok| expand_token(t)) == s,
    decreases s, 0int,
{
    assert forall|i: int| 0 <= i < s.len() implies #[trigger] expand_token(s[i]) == s[i] by {
        lemma_identity(s[i]);
    }
    assert(s.map_values(|t: Tok| expand_token(t)) =~= s);
    lemma_transparent_scan(s);
}

/// No-sugar invariance: a token sequence with no use of the notation, at any
/// depth, comes out exactly as it went in.
pub proof fn law_no_sugar(s: Seq<Tok>)
    requires
        sugar_free_all(s),
    ensures
        expand(s) == s,
{
    lemma_identity_all(s);
}

/// A sugar-free chain is scanned into the pending chain whole.
proof fn lemma_chain_scan(r: Seq<Tok>)
    requires
        is_chain(r),
        sugar_free_all(r),
    ensures
        run_from(initial_state(), r) == (Seq::<Tok>::empty(), r, r.len() > 0 && is_punct(r.last(), '.')),
    decreases r.len(),
{
    if r.len() == 0 {
        assert(r =~= Seq::<Tok>::empty());
    } else {
        let p = r.drop_last();
        let t = r.last();
        assert(is_chain(p)) by {
            assert forall|i: int| 0 <= i < p.len() implies continues_chain(p.take(i), #[trigger] p[i]) by {
                assert(p.take(i) =~= r.take(i));
                assert(p[i] == r[i]);
            }
        }
        assert(sugar_free_all(p)) by {
            assert forall|i: int| 1 <= i < p.len() implies !(is_punct(p[i - 1], '.') && #[trigger] p[i] is Group) by {
                assert(p[i] == r[i] && p[i - 1] == r[i - 1]);
            }
            assert forall|i: int| 0 <= i < p.len() implies sugar_free(#[trigger] p[i]) by {
                assert(p[i] == r[i]);
            }
        }
        lemma_chain_scan(p);
        if p.len() > 0 && is_punct(p.last(), '.') {
            assert(r[r.len() - 2] == p.last());
            assert(!(r[r.len() - 1] is Group));
        }
        assert(sugar_free(r[r.len() - 1]));
        lemma_identity(t);
        assert(r.take(r.len() - 1) =~= p);
        assert(continues_chain(p, t));
        assert(p.push(t) =~= r);
        let prev = run_from(initial_state(), p);
        assert(run_from(initial_state(), r) == step(prev, t));
        assert(step(prev, t) == (Seq::<Tok>::empty(), p.push(t), is_punct(t, '.')));
    }
}

/// A sugar-free chain followed by `.` and a group: the whole is one block.
proof fn lemma_sugar_after_chain(r: Seq<Tok>, d: Tok, delimiter: Delimiter, body: Seq<Tok>, span: Span)
    requires
        is_chain(r),
        sugar_free_all(r),
        is_punct(d, '.'),
    ensures
        expand(r + seq![d, Tok::Group(delimiter, body, span)]) == seq![sugar_block(r, body, span)],
{
    let g = Tok::Group(delimiter, body, span);
    let s = r + seq![d, g];
    lemma_chain_scan(r);
    assert(s.drop_last() =~= r.push(d));
    assert(r.push(d).drop_last() =~= r);
    lemma_push_drop_last(r, d);
    let st1 = run_from(initial_state(), r.push(d));
    assert(st1 == step(run_from(initial_state(), r), d));
    assert(st1 == (Seq::<Tok>::empty(), r.push(d), true));
    assert(run_from(initial_state(), s) == step(st1, g));
    assert(expand(s) =~= seq![sugar_block(r, body, span)]);
}

/// A plain name expands to itself and is one form.
proof fn lemma_plain_name(f: Seq<Tok>)
    requires
        is_plain_name(f),
    ensures
        sugar_free_all(f),
        comma_free(f),
{
    assert forall|i: int| 0 <= i < f.len() implies sugar_free(#[trigger] f[i]) by {
        assert(f[i] is Ident || is_punct(f[i], ':'));
    }
    assert forall|i: int| 0 <= i < f.len() implies !is_punct(#[trigger] f[i], ',') by {
        assert(f[i] is Ident || is_punct(f[i], ':'));
    }
}

/// Splitting where `q` holds no comma: `q` only extends the last form.
proof fn lemma_split_tail(p: Seq<Tok>, q: Seq<Tok>)
    requires
        comma_free(q),
    ensures
        split_forms(p + q) == split_forms(p).update(split_forms(p).len() - 1, split_forms(p).last() + q),
        split_forms(p).len() >= 1,
    decreases q.len(),
{
    lemma_split_len(p);
    if q.len() == 0 {
        assert(p + q =~= p);
        assert(split_forms(p).last() + q =~= split_forms(p).last());
        assert(split_forms(p).update(split_forms(p).len() - 1, split_forms(p).last()) =~= split_forms(p));
    } else {
        let q0 = q.drop_last();
        assert(comma_free(q0)) by {
            assert forall|i: int| 0 <= i < q0.len() implies !is_punct(#[trigger] q0[i], ',') by {
                assert(q0[i] == q[i]);
            }
        }
        lemma_split_tail(p, q0);
        assert((p + q).drop_last() =~= p + q0);
        assert((p + q).last() == q[q.len() - 1]);
        let parts = split_forms(p);
        let n = parts.len() - 1;
        assert(parts.update(n, parts.last() + q0).last() =~= parts.last() + q0);
        assert((parts.last() + q0).push(q.last()) =~= parts.last() + q);
        assert(parts.update(n, parts.last() + q0).update(n, parts.last() + q) =~= parts.update(n, parts.last() + q));
    }
}

proof fn lemma_split_len(s: Seq<Tok>)
    ensures
        split_forms(s).len() >= 1,
    decreases s.len(),
{
    if s.len() > 0 {
        lemma_split_len(s.drop_last());
    }
}

/// The forms of `a, b` where neither holds a top-level comma are `a` and `b`.
proof fn lemma_split_two(a: Seq<Tok>, c: Tok, b: Seq<Tok>)
    requires
        comma_free(a),
        comma_free(b),
        is_punct(c, ','),
    ensures
        split_forms(a + seq![c] + b) == seq![a, b],
{
    let e = Seq::<Tok>::empty();
    lemma_split_tail(e, a);
    assert(e + a =~= a);
    assert(split_forms(e) == seq![e]);
    assert(split_forms(a) =~= seq![a]);
    lemma_push_drop_last(a, c);
    assert((a + seq![c]).drop_last() =~= a);
    assert(split_forms(a + seq![c]) =~= seq![a, e]);
    lemma_split_tail(a + seq![c], b);
    assert(split_forms(a + seq![c] + b) =~= seq![a, b]);
}

/// Expansion only ever adds groups: it keeps a sequence comma-free.
proof fn lemma_expand_comma_free(s: Seq<Tok>, st: ScanState)
    requires
        comma_free(s),
        comma_free(st.0),
        comma_free(st.1),
    ensures
        comma_free(run_from(st, s).0),
        comma_free(run_from(st, s).1),
    decreases s.len(),
{
    if s.len() > 0 {
        let p = s.drop_last();
        assert(comma_free(p)) by {
            assert forall|i: int| 0 <= i < p.len() implies !is_punct(#[trigger] p[i], ',') by {
                assert(p[i] == s[i]);
            }
        }
        lemma_expand_comma_free(p, st);
        let prev = run_from(st, p);
        let t = s.last();
        assert(!is_punct(s[s.len() - 1], ','));
        let next = step(prev, t);
        assert forall|i: int| 0 <= i < next.0.len() implies !is_punct(#[trigger] next.0[i], ',') by {
            if i >= prev.0.len() {
                let chain = prev.1.push(expand_token(t));
                assert(next.0[i] == chain[i - prev.0.len()]);
            }
        }
        assert forall|i: int| 0 <= i < next.1.len() implies !is_punct(#[trigger] next.1[i], ',') by {
            if i < prev.1.len() && !(prev.2 && t is Group) {
                assert(next.1[i] == prev.1[i]);
            }
        }
    }
}

/// The output of a scan from a state is the state's output followed by the
/// rest.
proof fn lemma_run_out(x: Seq<Tok>, st: ScanState, s: Seq<Tok>)
    ensures
        run_from((x + st.0, st.1, st.2), s) == (x + run_from(st, s).0, run_from(st, s).1, run_from(st, s).2),
    decreases s.len(),
{
    if s.len() > 0 {
        lemma_run_out(x, st, s.drop_last());
        let prev = run_from(st, s.drop_last());
        let t = s.last();
        let u = expand_token(t);
        let lhs = step((x + prev.0, prev.1, prev.2), t);
        let rhs = step(prev, t);
        assert(run_from((x + st.0, st.1, st.2), s) == lhs);
        assert(run_from(st, s) == rhs);
        if prev.2 && t is Group {
            assert(lhs.0 == x + rhs.0 && lhs.1 == rhs.1 && lhs.2 == rhs.2);
        } else if continues_chain(prev.1, u) {
            assert(lhs.0 == x + rhs.0 && lhs.1 == rhs.1 && lhs.2 == rhs.2);
        } else {
            assert(x + prev.0 + prev.1.push(u) =~= x + (prev.0 + prev.1.push(u)));
            assert(lhs.0 == x + rhs.0 && lhs.1 == rhs.1 && lhs.2 == rhs.2);
        }
    } else {
        assert(run_from((x + st.0, st.1, st.2), s) == (x + st.0, st.1, st.2));
    }
}

/// A scan of a concatenation is the scan of the second part from where the
/// first left off.
proof fn lemma_run_concat(st: ScanState, a: Seq<Tok>, b: Seq<Tok>)
    ensures
        run_from(st, a + b) == run_from(run_from(st, a), b),
    decreases b.len(),
{
    if b.len() == 0 {
        assert(a + b =~= a);
    } else {
        lemma_run_concat(st, a, b.drop_last());
        assert((a + b).drop_last() =~= a + b.drop_last());
        assert((a + b).last() == b.last());
    }
}

/// A top-level comma ends every chain: the expansion of `a, b` is that of
/// `a`, the comma, and that of `b`.
proof fn lemma_expand_comma(a: Seq<Tok>, c: Tok, b: Seq<Tok>)
    requires
        is_punct(c, ','),
    ensures
        expand(a + seq![c] + b) == expand(a) + seq![c] + expand(b),
{
    let sa = run_from(initial_state(), a);
    lemma_run_concat(initial_state(), a + seq![c], b);
    lemma_run_concat(initial_state(), a, seq![c]);
    assert(seq![c].drop_last() =~= Seq::<Tok>::empty());
    let sc = run_from(sa, seq![c]);
    assert(run_from(sa, Seq::<Tok>::empty()) == sa);
    assert(seq![c].last() == c);
    assert(sc == step(run_from(sa, seq![c].drop_last()), seq![c].last()));
    assert(sc == step(sa, c));
    assert(sc == (sa.0 + sa.1.push(c), Seq::<Tok>::empty(), false));
    lemma_run_out(sa.0 + sa.1.push(c), initial_state(), b);
    assert((sa.0 + sa.1.push(c) + Seq::<Tok>::empty(), Seq::<Tok>::empty(), false) == sc) by {
        assert(sa.0 + sa.1.push(c) + Seq::<Tok>::empty() =~= sa.0 + sa.1.push(c));
    }
    let sb = run_from(initial_state(), b);
    assert(expand(a + seq![c] + b) =~= (sa.0 + sa.1.push(c) + sb.0) + sb.1);
    assert(expand(a + seq![c] + b) =~= expand(a) + seq![c] + expand(b));
}

/// Bare-call law: `receiver.[f]`, for a plain name `f`, becomes
/// `{ let mut it = receiver; f(it) }`.
pub proof fn law_bare_call(receiver: Seq<Tok>, d: Tok, delimiter: Delimiter, f: Seq<Tok>, span: Span)
    requires
        is_chain(receiver),
        sugar_free_all(receiver),
        is_punct(d, '.'),
        f.len() > 0,
        is_plain_name(f),
    ensures
        expand(receiver + seq![d, Tok::Group(delimiter, f, span)]) == seq![
            Tok::Group(Delimiter::Brace, binding(receiver) + substitute_all(f).push(placeholder_args()), span),
        ],
{
    lemma_sugar_after_chain(receiver, d, delimiter, f, span);
    lemma_plain_name(f);
    lemma_identity_all(f);
    lemma_split_tail(Seq::<Tok>::empty(), f);
    assert(Seq::<Tok>::empty() + f =~= f);
    assert(split_forms(f) =~= seq![f]);
}

/// Sequencing law: the block for the body `a, b` binds the receiver, then
/// holds the statement of `a`, a `;`, and the statement of `b` last, so that
/// the block's value is that of `b`.
pub proof fn law_sequencing(receiver: Seq<Tok>, a: Seq<Tok>, c: Tok, b: Seq<Tok>, span: Span)
    requires
        comma_free(a),
        comma_free(b),
        is_punct(c, ','),
    ensures
        sugar_block(receiver, a + seq![c] + b, span) == Tok::Group(
            Delimiter::Brace,
            binding(receiver) + rewrite_form(expand(a)) + seq![semi()] + rewrite_form(expand(b)),
            span,
        ),
{
    lemma_expand_comma(a, c, b);
    lemma_expand_comma_free(a, initial_state());
    lemma_expand_comma_free(b, initial_state());
    let ea = expand(a);
    let eb = expand(b);
    assert(comma_free(ea)) by {
        let st = run_from(initial_state(), a);
        assert forall|i: int| 0 <= i < ea.len() implies !is_punct(#[trigger] ea[i], ',') by {
            if i < st.0.len() {
                assert(ea[i] == st.0[i]);
            } else {
                assert(ea[i] == st.1[i - st.0.len()]);
            }
        }
    }
    assert(comma_free(eb)) by {
        let st = run_from(initial_state(), b);
        assert forall|i: int| 0 <= i < eb.len() implies !is_punct(#[trigger] eb[i], ',') by {
            if i < st.0.len() {
                assert(eb[i] == st.0[i]);
            } else {
                assert(eb[i] == st.1[i - st.0.len()]);
            }
        }
    }
    lemma_split_two(ea, c, eb);
    assert((a + seq![c] + b).len() > 0);
    let parts = seq![ea, eb];
    assert(parts.drop_last() =~= seq![ea]);
    assert(parts.last() == eb);
    assert(seq![ea][0] == ea);
    assert(join_forms(seq![ea]) == rewrite_form(ea));
    assert(join_forms(parts) == rewrite_form(ea) + seq![semi()] + rewrite_form(eb));
    assert(statements(expand(a + seq![c] + b)) == statements(ea + seq![c] + eb));
    assert(statements(ea + seq![c] + eb) == rewrite_form(ea) + seq![semi()] + rewrite_form(eb));
    assert(binding(receiver) + (rewrite_form(ea) + seq![semi()] + rewrite_form(eb)) =~= binding(receiver)
        + rewrite_form(ea) + seq![semi()] + rewrite_form(eb));
}

/// Implicit-method law: `receiver.[m(args)]`, where the call holds no
/// placeholder, becomes `{ let mut it = receiver; it.m(args) }`.
pub proof fn law_implicit_method(
    receiver: Seq<Tok>,
    d: Tok,
    delimiter: Delimiter,
    m: Tok,
    args: Tok,
    span: Span,
)
    requires
        is_chain(receiver),
        sugar_free_all(receiver),
        is_punct(d, '.'),
        m matches Tok::Ident(name, _) && name != placeholder_name(),
        args matches Tok::Group(delim, inner, _) && delim == Delimiter::Parenthesis && sugar_free_all(inner)
            && !mentions_any(inner),
    ensures
        expand(receiver + seq![d, Tok::Group(delimiter, seq![m, args], span)]) == seq![
            Tok::Group(Delimiter::Brace, binding(receiver) + seq![placeholder(), dot(), m, args], span),
        ],
{
    let f = seq![m, args];
    lemma_sugar_after_chain(receiver, d, delimiter, f, span);
    assert(sugar_free_all(f)) by {
        assert(f[0] == m && f[1] == args);
    }
    lemma_identity_all(f);
    assert(comma_free(f)) by {
        assert(f[0] == m && f[1] == args);
    }
    lemma_split_tail(Seq::<Tok>::empty(), f);
    assert(Seq::<Tok>::empty() + f =~= f);
    assert(split_forms(f) =~= seq![f]);
    assert(!is_plain_name(f)) by {
        assert(!(f[1] is Ident || is_punct(f[1], ':')));
    }
    assert(first_call(f) == 1);
    assert(!mentions_any(f)) by {
        lemma_mentions_any(f);
        assert(f[0] == m && f[1] == args);
    }
    assert(f.take(0) + seq![placeholder(), dot()] + f.skip(0) =~= seq![placeholder(), dot(), m, args]);
}

/// Nested composition: in `receiver.[ inner.[g] ]` the inner use is expanded
/// first, and its block is the one form of the outer body.
pub proof fn law_nested(
    receiver: Seq<Tok>,
    d: Tok,
    delimiter: Delimiter,
    inner: Seq<Tok>,
    d2: Tok,
    delimiter2: Delimiter,
    g: Seq<Tok>,
    span: Span,
    span2: Span,
)
    requires
        is_chain(receiver),
        sugar_free_all(receiver),
        is_chain(inner),
        sugar_free_all(inner),
        is_punct(d, '.'),
        is_punct(d2, '.'),
    ensures
        expand(
            receiver + seq![d, Tok::Group(delimiter, inner + seq![d2, Tok::Group(delimiter2, g, span2)], span)],
        ) == seq![
            Tok::Group(Delimiter::Brace, binding(receiver) + rewrite_form(seq![sugar_block(inner, g, span2)]), span),
        ],
{
    let body = inner + seq![d2, Tok::Group(delimiter2, g, span2)];
    lemma_sugar_after_chain(receiver, d, delimiter, body, span);
    lemma_sugar_after_chain(inner, d2, delimiter2, g, span2);
    let blk = sugar_block(inner, g, span2);
    assert(comma_free(seq![blk]));
    lemma_split_tail(Seq::<Tok>::empty(), seq![blk]);
    assert(Seq::<Tok>::empty() + seq![blk] =~= seq![blk]);
    assert(split_forms(seq![blk]) =~= seq![seq![blk]]);
    assert(body.len() > 0);
}

} // verus!
