use vstd::prelude::*;
use crate::token::{
    is_punct, lemma_trees_view, lemma_push_drop_last, lemma_trees_view_push, placeholder, placeholder_ident, placeholder_name, is_placeholder, call_site_punct, Delimiter, Group, Spacing, Span, Tok,
    TokenTree, tree_view, trees_view,
};

verus! {

/// Rebinds every placeholder in `t`, at any depth, to the call site, where the
/// rewrite introduces the binding; every other token is kept.
pub open spec fn substitute(t: Tok) -> Tok
    decreases t, 1int,
{
    match t {
        Tok::Ident(name, _) => if name == placeholder_name() {
            placeholder()
        } else {
            t
        },
        Tok::Group(delimiter, stream, span) => Tok::Group(delimiter, substitute_all(stream), span),
        _ => t,
    }
}

pub open spec fn substitute_all(s: Seq<Tok>) -> Seq<Tok>
    decreases s, 0int,
{
    if s.len() == 0 {
        seq![]
    } else {
        substitute_all(s.drop_last()).push(substitute(s.last()))
    }
}

/// Rebinds the placeholders in `t` (see `substitute`).
pub fn substitute_tree(t: TokenTree) -> (r: TokenTree)
    ensures
        r@ == substitute(t@),
    decreases t,
{
    match t {
        TokenTree::Ident(ident) => {
            if is_placeholder(&ident) {
                placeholder_ident()
            } else {
                TokenTree::Ident(ident)
            }
        },
        TokenTree::Group(group) => {
            let Group { delimiter, stream, span } = group;
            let stream = substitute_trees(stream);
            TokenTree::Group(Group { delimiter, stream, span })
        },
        other => other,
    }
}

/// Rebinds the placeholders in each token of `v` (see `substitute`).
pub fn substitute_trees(v: Vec<TokenTree>) -> (r: Vec<TokenTree>)
    ensures
        trees_view(r@) == substitute_all(trees_view(v@)),
    decreases v,
{
    let ghost s = v@;
    let mut out: Vec<TokenTree> = Vec::new();
    for t in iter: v.into_iter()
        invariant
            iter.seq() == s,
            trees_view(out@) == substitute_all(trees_view(s.take(iter.index()))),
    {
        let ghost i = iter.index();
        proof {
            lemma_trees_view_push(s.take(i), s[i]);
            assert(s.take(i + 1) =~= s.take(i).push(s[i]));
            assert(decreases_to!(v => s[i]));
            lemma_push_drop_last(trees_view(s.take(i)), tree_view(s[i]));
        }
        let u = substitute_tree(t);
        proof {
            lemma_trees_view_push(out@, u);
        }
        out.push(u);
    }
    proof {
        assert(s.take(s.len() as int) =~= s);
    }
    out
}


/// Whether `t` holds an identifier spelled as the placeholder, at any depth.
pub open spec fn mentions(t: Tok) -> bool
    decreases t, 1int,
{
    match t {
        Tok::Ident(name, _) => name == placeholder_name(),
        Tok::Group(_, stream, _) => mentions_any(stream),
        _ => false,
    }
}

pub open spec fn mentions_any(s: Seq<Tok>) -> bool
    decreases s, 0int,
{
    s.len() > 0 && (mentions_any(s.drop_last()) || mentions(s.last()))
}

/// A path such as `f` or `a::b::f`: identifiers and colons only.
pub open spec fn is_plain_name(s: Seq<Tok>) -> bool {
    forall|i: int| 0 <= i < s.len() ==> (#[trigger] s[i] is Ident || is_punct(s[i], ':'))
}

/// Whether the parenthesis group at `i` is the argument list of a call of the
/// identifier just before it.
pub open spec fn is_call_at(s: Seq<Tok>, i: int) -> bool {
    &&& 0 < i < s.len()
    &&& s[i - 1] is Ident
    &&& s[i] matches Tok::Group(delimiter, _, _) && delimiter == Delimiter::Parenthesis
}

/// The first position at or after `i` where a call's argument list stands,
/// or the length of `s` when there is none.
pub open spec fn first_call_from(s: Seq<Tok>, i: int) -> int
    decreases s.len() - i,
{
    if i >= s.len() {
        s.len() as int
    } else if is_call_at(s, i) {
        i
    } else {
        first_call_from(s, i + 1)
    }
}

pub open spec fn first_call(s: Seq<Tok>) -> int {
    first_call_from(s, 1)
}

pub open spec fn dot() -> Tok {
    Tok::Punct('.', Spacing::Alone, Span::CallSite)
}

/// What `first_call_from` finds: a call at or after `i`, with none between,
/// or the length when there is none.
pub proof fn lemma_first_call_from(s: Seq<Tok>, i: int)
    requires
        1 <= i,
    ensures
        i <= first_call_from(s, i) || first_call_from(s, i) == s.len(),
        first_call_from(s, i) <= s.len() || first_call_from(s, i) == i,
        first_call_from(s, i) < s.len() ==> is_call_at(s, first_call_from(s, i)),
        forall|j: int| i <= j < first_call_from(s, i) ==> !is_call_at(s, j),
    decreases s.len() - i,
{
    if i < s.len() && !is_call_at(s, i) {
        lemma_first_call_from(s, i + 1);
    }
}

/// The placeholder as the only argument of a call: `(it)`.
pub open spec fn placeholder_args() -> Tok {
    Tok::Group(Delimiter::Parenthesis, seq![placeholder()], Span::CallSite)
}

/// The statement that one form of a sugar body becomes:
/// - an empty form is the placeholder itself;
/// - a plain name `f` is called with the placeholder: `f(it)`;
/// - a form with a call `m(..)` and no placeholder anywhere in it becomes a
///   method call on the placeholder, `it.` inserted before the first call;
/// - any other form is kept, with its placeholders rebound (see `substitute`).
pub open spec fn rewrite_form(s: Seq<Tok>) -> Seq<Tok> {
    if s.len() == 0 {
        seq![placeholder()]
    } else if is_plain_name(s) {
        substitute_all(s).push(placeholder_args())
    } else if first_call(s) < s.len() && !mentions_any(s) {
        let k = first_call(s) - 1;
        s.take(k) + seq![placeholder(), dot()] + s.skip(k)
    } else {
        substitute_all(s)
    }
}

/// Whether `t` holds the placeholder, at any depth (see `mentions`).
pub fn mentions_placeholder(t: &TokenTree) -> (r: bool)
    ensures
        r == mentions(t@),
    decreases t,
{
    match t {
        TokenTree::Ident(ident) => is_placeholder(ident),
        TokenTree::Group(group) => any_mentions_placeholder(&group.stream),
        _ => false,
    }
}

/// Whether some token of `v` holds the placeholder, at any depth.
pub fn any_mentions_placeholder(v: &Vec<TokenTree>) -> (r: bool)
    ensures
        r == mentions_any(trees_view(v@)),
    decreases v,
{
    let ghost s = trees_view(v@);
    proof {
        lemma_trees_view(v@);
        lemma_mentions_any(s);
    }
    let mut i: usize = 0;
    while i < v.len()
        invariant
            i <= v.len(),
            s == trees_view(v@),
            s.len() == v@.len(),
            forall|j: int| 0 <= j < v@.len() ==> #[trigger] s[j] == tree_view(v@[j]),
            mentions_any(s) <==> exists|j: int| 0 <= j < s.len() && mentions(#[trigger] s[j]),
            forall|j: int| 0 <= j < i ==> !mentions(#[trigger] s[j]),
        decreases v.len() - i,
    {
        proof {
            assert(decreases_to!(v => v@[i as int]));
        }
        if mentions_placeholder(&v[i]) {
            assert(mentions(s[i as int]));
            return true;
        }
        i = i + 1;
    }
    false
}

/// `mentions_any` holds exactly when some token mentions the placeholder.
pub proof fn lemma_mentions_any(s: Seq<Tok>)
    ensures
        mentions_any(s) <==> exists|j: int| 0 <= j < s.len() && mentions(#[trigger] s[j]),
    decreases s.len(),
{
    if s.len() > 0 {
        lemma_mentions_any(s.drop_last());
        if mentions_any(s.drop_last()) {
            let j = choose|j: int| 0 <= j < s.len() - 1 && mentions(#[trigger] s.drop_last()[j]);
            assert(s[j] == s.drop_last()[j]);
        }
        if exists|j: int| 0 <= j < s.len() && mentions(#[trigger] s[j]) {
            let j = choose|j: int| 0 <= j < s.len() && mentions(#[trigger] s[j]);
            if j < s.len() - 1 {
                assert(s.drop_last()[j] == s[j]);
            }
        }
    }
}

/// Whether `v` is a plain name (see `is_plain_name`).
pub fn plain_name(v: &Vec<TokenTree>) -> (r: bool)
    ensures
        r == is_plain_name(trees_view(v@)),
{
    proof {
        lemma_trees_view(v@);
    }
    let ghost s = trees_view(v@);
    let mut i: usize = 0;
    while i < v.len()
        invariant
            i <= v.len(),
            s == trees_view(v@),
            s.len() == v@.len(),
            forall|j: int| 0 <= j < v@.len() ==> #[trigger] s[j] == tree_view(v@[j]),
            forall|j: int| 0 <= j < i ==> (#[trigger] s[j] is Ident || is_punct(s[j], ':')),
        decreases v.len() - i,
    {
        let ok = match &v[i] {
            TokenTree::Ident(_) => true,
            TokenTree::Punct(p) => p.ch == ':',
            _ => false,
        };
        if !ok {
            assert(!(s[i as int] is Ident || is_punct(s[i as int], ':')));
            return false;
        }
        i = i + 1;
    }
    true
}

/// The first position where a call's argument list stands (see `first_call`).
pub fn find_first_call(v: &Vec<TokenTree>) -> (r: usize)
    ensures
        r == first_call(trees_view(v@)),
{
    let ghost s = trees_view(v@);
    proof {
        lemma_trees_view(v@);
    }
    let mut i: usize = 1;
    while i < v.len()
        invariant
            1 <= i,
            s == trees_view(v@),
            s.len() == v@.len(),
            forall|j: int| 0 <= j < v@.len() ==> #[trigger] s[j] == tree_view(v@[j]),
            first_call(s) == first_call_from(s, i as int),
        decreases v.len() - i,
    {
        let is_call = match (&v[i - 1], &v[i]) {
            (TokenTree::Ident(_), TokenTree::Group(g)) => g.delimiter == Delimiter::Parenthesis,
            _ => false,
        };
        assert(is_call == is_call_at(s, i as int));
        if is_call {
            return i;
        }
        i = i + 1;
    }
    v.len()
}

/// The statement that one form of a sugar body becomes (see `rewrite_form`).
pub fn rewrite_subform(v: Vec<TokenTree>) -> (r: Vec<TokenTree>)
    ensures
        trees_view(r@) == rewrite_form(trees_view(v@)),
{
    proof {
        lemma_trees_view(v@);
    }
    if v.len() == 0 {
        let mut r: Vec<TokenTree> = Vec::new();
        r.push(placeholder_ident());
        proof {
            lemma_trees_view(r@);
            assert(trees_view(r@) =~= seq![placeholder()]);
        }
        return r;
    }
    if plain_name(&v) {
        let mut r = substitute_trees(v);
        let mut args: Vec<TokenTree> = Vec::new();
        args.push(placeholder_ident());
        proof {
            lemma_trees_view(args@);
            assert(trees_view(args@) =~= seq![placeholder()]);
        }
        let call = TokenTree::Group(Group { delimiter: Delimiter::Parenthesis, stream: args, span: Span::CallSite });
        proof {
            lemma_trees_view_push(r@, call);
        }
        r.push(call);
        return r;
    }
    let k = find_first_call(&v);
    proof {
        lemma_first_call_from(trees_view(v@), 1);
    }
    if k < v.len() && !any_mentions_placeholder(&v) {
        let ghost s = trees_view(v@);
        let mut r = v;
        r.insert(k - 1, call_site_punct('.'));
        r.insert(k - 1, placeholder_ident());
        proof {
            lemma_trees_view(r@);
            assert(trees_view(r@) =~= s.take(k - 1) + seq![placeholder(), dot()] + s.skip(k - 1));
        }
        r
    } else {
        substitute_trees(v)
    }
}

} // verus!
