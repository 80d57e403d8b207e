use vstd::prelude::*;

verus! {

/// The bracket pair that encloses a group.
#[derive(Clone, Copy, Debug, PartialEq, Eq, Structural)]
pub enum Delimiter {
    Parenthesis,
    Brace,
    Bracket,
    /// A group without visible brackets, such as one produced by macro expansion.
    Invisible,
}

/// Whether a punctuation mark is glued to the one that follows it (`::`) or not (`: :`).
#[derive(Clone, Copy, Debug, PartialEq, Eq, Structural)]
pub enum Spacing {
    Joint,
    Alone,
}

/// Where a token comes from: a position in the input, numbered by the caller,
/// or the site of the macro call, which is where tokens made by this pass live.
/// An identifier resolves in the scope of its span.
#[derive(Clone, Copy, Debug, PartialEq, Eq, Structural)]
pub enum Span {
    CallSite,
    Source(u64),
}

#[derive(Debug, PartialEq, Eq)]
pub struct Group {
    pub delimiter: Delimiter,
    pub stream: Vec<TokenTree>,
    pub span: Span,
}

#[derive(Debug, PartialEq, Eq)]
pub struct Ident {
    pub name: String,
    pub span: Span,
}

#[derive(Debug, PartialEq, Eq)]
pub struct Punct {
    pub ch: char,
    pub spacing: Spacing,
    pub span: Span,
}

#[derive(Debug, PartialEq, Eq)]
pub struct Literal {
    pub text: String,
    pub span: Span,
}

/// One token of a well-nested token sequence.
#[derive(Debug, PartialEq, Eq)]
pub enum TokenTree {
    Group(Group),
    Ident(Ident),
    Punct(Punct),
    Literal(Literal),
}

/// The mathematical model of a token: the same tree, with sequences in
/// place of vectors and strings.
pub enum Tok {
    Group(Delimiter, Seq<Tok>, Span),
    Ident(Seq<char>, Span),
    Punct(char, Spacing, Span),
    Literal(Seq<char>, Span),
}

pub open spec fn tree_view(t: TokenTree) -> Tok
    decreases t, 1int,
{
    match t {
        TokenTree::Group(g) => Tok::Group(g.delimiter, trees_view(g.stream@), g.span),
        TokenTree::Ident(i) => Tok::Ident(i.name@, i.span),
        TokenTree::Punct(p) => Tok::Punct(p.ch, p.spacing, p.span),
        TokenTree::Literal(l) => Tok::Literal(l.text@, l.span),
    }
}

pub open spec fn trees_view(s: Seq<TokenTree>) -> Seq<Tok>
    decreases s, 0int,
{
    if s.len() == 0 {
        seq![]
    } else {
        trees_view(s.drop_last()).push(tree_view(s.last()))
    }
}

impl View for TokenTree {
    type V = Tok;

    open spec fn view(&self) -> Tok {
        tree_view(*self)
    }
}


/// `trees_view` keeps the length and maps each token by `tree_view`.
pub proof fn lemma_trees_view(s: Seq<TokenTree>)
    ensures
        trees_view(s).len() == s.len(),
        forall|i: int| 0 <= i < s.len() ==> #[trigger] trees_view(s)[i] == tree_view(s[i]),
    decreases s.len(),
{
    if s.len() > 0 {
        lemma_trees_view(s.drop_last());
    }
}

/// Removing the last element undoes a push.
pub proof fn lemma_push_drop_last<A>(s: Seq<A>, x: A)
    ensures
        #[trigger] s.push(x).drop_last() == s,
{
    assert(s.push(x).drop_last() =~= s);
}

/// The views of a push.
pub proof fn lemma_trees_view_push(s: Seq<TokenTree>, t: TokenTree)
    ensures
        trees_view(s.push(t)) == trees_view(s).push(tree_view(t)),
{
    assert(s.push(t).drop_last() =~= s);
}

/// The views of a concatenation.
pub proof fn lemma_trees_view_add(a: Seq<TokenTree>, b: Seq<TokenTree>)
    ensures
        trees_view(a + b) == trees_view(a) + trees_view(b),
    decreases b.len(),
{
    if b.len() == 0 {
        assert(a + b =~= a);
        assert(trees_view(a) + trees_view(b) =~= trees_view(a));
    } else {
        lemma_trees_view_add(a, b.drop_last());
        assert((a + b).drop_last() =~= a + b.drop_last());
        assert(trees_view(a) + trees_view(b) =~= trees_view(a) + trees_view(b.drop_last()) + seq![tree_view(b.last())]);
    }
}

/// The spelling of the placeholder that names the receiver inside a sugar body.
pub open spec fn placeholder_name() -> Seq<char> {
    seq!['i', 't']
}

/// The placeholder as this pass writes it: resolved at the call site, where
/// the binding that the rewrite introduces lives.
pub open spec fn placeholder() -> Tok {
    Tok::Ident(placeholder_name(), Span::CallSite)
}

pub open spec fn is_punct(t: Tok, c: char) -> bool {
    t matches Tok::Punct(ch, _, _) && ch == c
}

pub open spec fn is_joint_colon(t: Tok) -> bool {
    t matches Tok::Punct(ch, spacing, _) && ch == ':' && spacing == Spacing::Joint
}

/// Whether `t` extends the expression chain whose tokens so far are `pending`:
/// groups with visible brackets, identifiers, literals, `.`, `<`, `>`, `?`, the
/// first `:` of a `::`, and a second `:` right after a joint one.
pub open spec fn continues_chain(pending: Seq<Tok>, t: Tok) -> bool {
    match t {
        Tok::Group(delimiter, _, _) => delimiter != Delimiter::Invisible,
        Tok::Ident(_, _) => true,
        Tok::Literal(_, _) => true,
        Tok::Punct(ch, spacing, _) => {
            ||| ch == '.' || ch == '<' || ch == '>' || ch == '?'
            ||| ch == ':' && spacing == Spacing::Joint
            ||| ch == ':' && pending.len() > 0 && is_joint_colon(pending.last())
        },
    }
}

/// A token that this pass writes: an identifier resolved at the call site.
pub fn call_site_ident(name: &str) -> (r: TokenTree)
    ensures
        r@ == Tok::Ident(name@, Span::CallSite),
{
    TokenTree::Ident(Ident { name: name.to_owned(), span: Span::CallSite })
}

/// The placeholder identifier, resolved at the call site.
pub fn placeholder_ident() -> (r: TokenTree)
    ensures
        r@ == placeholder(),
{
    proof {
        reveal_strlit("it");
        assert("it"@ =~= placeholder_name());
    }
    call_site_ident("it")
}

/// A lone punctuation mark that this pass writes.
pub fn call_site_punct(ch: char) -> (r: TokenTree)
    ensures
        r@ == Tok::Punct(ch, Spacing::Alone, Span::CallSite),
{
    TokenTree::Punct(Punct { ch, spacing: Spacing::Alone, span: Span::CallSite })
}

/// Whether an identifier is spelled as the placeholder.
pub fn is_placeholder(ident: &Ident) -> (r: bool)
    ensures
        r == (ident.name@ == placeholder_name()),
{
    proof {
        reveal_strlit("it");
        assert("it"@ =~= placeholder_name());
    }
    let it = "it".to_owned();
    ident.name == it
}

/// Whether `t` is the punctuation mark `c`.
pub fn is_punct_char(t: &TokenTree, c: char) -> (r: bool)
    ensures
        r == is_punct(t@, c),
{
    match t {
        TokenTree::Punct(p) => p.ch == c,
        _ => false,
    }
}

/// Whether `t` extends the expression chain whose tokens so far are `pending`.
pub fn token_continues_chain(pending: &Vec<TokenTree>, t: &TokenTree) -> (r: bool)
    ensures
        r == continues_chain(trees_view(pending@), t@),
{
    proof {
        lemma_trees_view(pending@);
    }
    match t {
        TokenTree::Group(g) => g.delimiter != Delimiter::Invisible,
        TokenTree::Ident(_) => true,
        TokenTree::Literal(_) => true,
        TokenTree::Punct(p) => {
            if p.ch == '.' || p.ch == '<' || p.ch == '>' || p.ch == '?' {
                true
            } else if p.ch != ':' {
                false
            } else if p.spacing == Spacing::Joint {
                true
            } else if pending.len() == 0 {
                false
            } else {
                match &pending[pending.len() - 1] {
                    TokenTree::Punct(q) => q.ch == ':' && q.spacing == Spacing::Joint,
                    _ => false,
                }
            }
        },
    }
}

} // verus!
