use extdot::{expr, extdot, find_empty_bodies, item};
use extdot::{Delimiter, Group, Ident, Literal, Punct, Spacing, Span, TokenTree};

fn src(n: u64) -> Span {
    Span::Source(n)
}

fn id(name: &str, n: u64) -> TokenTree {
    TokenTree::Ident(Ident { name: name.to_string(), span: src(n) })
}

fn lit(text: &str, n: u64) -> TokenTree {
    TokenTree::Literal(Literal { text: text.to_string(), span: src(n) })
}

fn p(ch: char, n: u64) -> TokenTree {
    TokenTree::Punct(Punct { ch, spacing: Spacing::Alone, span: src(n) })
}

fn pj(ch: char, n: u64) -> TokenTree {
    TokenTree::Punct(Punct { ch, spacing: Spacing::Joint, span: src(n) })
}

fn grp(delimiter: Delimiter, stream: Vec<TokenTree>, n: u64) -> TokenTree {
    TokenTree::Group(Group { delimiter, stream, span: src(n) })
}

fn paren(stream: Vec<TokenTree>, n: u64) -> TokenTree {
    grp(Delimiter::Parenthesis, stream, n)
}

fn bracket(stream: Vec<TokenTree>, n: u64) -> TokenTree {
    grp(Delimiter::Bracket, stream, n)
}

fn site_id(name: &str) -> TokenTree {
    TokenTree::Ident(Ident { name: name.to_string(), span: Span::CallSite })
}

fn site_p(ch: char) -> TokenTree {
    TokenTree::Punct(Punct { ch, spacing: Spacing::Alone, span: Span::CallSite })
}

fn it() -> TokenTree {
    site_id("it")
}

fn block(stream: Vec<TokenTree>, span: Span) -> TokenTree {
    TokenTree::Group(Group { delimiter: Delimiter::Brace, stream, span })
}

/// `let mut it = <receiver> ;`
fn binding(receiver: Vec<TokenTree>) -> Vec<TokenTree> {
    let mut v = vec![site_id("let"), site_id("mut"), it(), site_p('=')];
    v.extend(receiver);
    v.push(site_p(';'));
    v
}

fn it_args() -> TokenTree {
    TokenTree::Group(Group { delimiter: Delimiter::Parenthesis, stream: vec![it()], span: Span::CallSite })
}

fn with(mut head: Vec<TokenTree>, tail: Vec<TokenTree>) -> Vec<TokenTree> {
    head.extend(tail);
    head
}

#[test]
fn method_on_placeholder() {
    // v.[it.abs()]
    let input = vec![id("v", 0), p('.', 1), bracket(vec![id("it", 3), p('.', 4), id("abs", 5), paren(vec![], 6)], 2)];
    let expected = vec![block(
        with(binding(vec![id("v", 0)]), vec![it(), p('.', 4), id("abs", 5), paren(vec![], 6)]),
        src(2),
    )];
    assert_eq!(extdot(input), expected);
}

#[test]
fn two_inserts_in_sequence() {
    // HashMap::new().[it.insert("k1", 1), it.insert("k2", 2)]
    let input = vec![
        id("HashMap", 0),
        pj(':', 1),
        p(':', 2),
        id("new", 3),
        paren(vec![], 4),
        p('.', 5),
        bracket(
            vec![
                id("it", 7),
                p('.', 8),
                id("insert", 9),
                paren(vec![lit("\"k1\"", 11), p(',', 12), lit("1", 13)], 10),
                p(',', 14),
                id("it", 15),
                p('.', 16),
                id("insert", 17),
                paren(vec![lit("\"k2\"", 19), p(',', 20), lit("2", 21)], 18),
            ],
            6,
        ),
    ];
    let receiver = vec![id("HashMap", 0), pj(':', 1), p(':', 2), id("new", 3), paren(vec![], 4)];
    let mut stream = binding(receiver);
    stream.extend(vec![
        it(),
        p('.', 8),
        id("insert", 9),
        paren(vec![lit("\"k1\"", 11), p(',', 12), lit("1", 13)], 10),
        site_p(';'),
        it(),
        p('.', 16),
        id("insert", 17),
        paren(vec![lit("\"k2\"", 19), p(',', 20), lit("2", 21)], 18),
    ]);
    assert_eq!(extdot(input), vec![block(stream, src(6))]);
}

#[test]
fn empty_body_gives_empty_block() {
    // x.[]
    let input = vec![id("x", 0), p('.', 1), bracket(vec![], 2)];
    assert_eq!(find_empty_bodies(&input), vec![src(2)]);
    assert_eq!(extdot(input), vec![block(vec![], src(2))]);
}

#[test]
fn empty_bodies_found_at_depth() {
    // f(a.[], b.[c.[]]) g.[h]
    let input = vec![
        id("f", 0),
        paren(
            vec![
                id("a", 2),
                p('.', 3),
                bracket(vec![], 4),
                p(',', 5),
                id("b", 6),
                p('.', 7),
                bracket(vec![id("c", 9), p('.', 10), bracket(vec![], 11)], 8),
            ],
            1,
        ),
        id("g", 12),
        p('.', 13),
        bracket(vec![id("h", 15)], 14),
    ];
    assert_eq!(find_empty_bodies(&input), vec![src(4), src(11)]);
}

#[test]
fn no_sugar_unchanged() {
    // let y = a + b(c.d, [e]) { f; }
    let input = vec![
        id("let", 0),
        id("y", 1),
        p('=', 2),
        id("a", 3),
        p('+', 4),
        id("b", 5),
        paren(vec![id("c", 7), p('.', 8), id("d", 9), p(',', 10), bracket(vec![id("e", 12)], 11)], 6),
        grp(Delimiter::Brace, vec![id("f", 14), p(';', 15)], 13),
    ];
    let copy = vec![
        id("let", 0),
        id("y", 1),
        p('=', 2),
        id("a", 3),
        p('+', 4),
        id("b", 5),
        paren(vec![id("c", 7), p('.', 8), id("d", 9), p(',', 10), bracket(vec![id("e", 12)], 11)], 6),
        grp(Delimiter::Brace, vec![id("f", 14), p(';', 15)], 13),
    ];
    assert_eq!(extdot(input), copy);
    assert!(find_empty_bodies(&vec![id("a", 0)]).is_empty());
}

#[test]
fn bare_call_of_plain_name() {
    // x.[f]
    let input = vec![id("x", 0), p('.', 1), bracket(vec![id("f", 3)], 2)];
    let expected = vec![block(with(binding(vec![id("x", 0)]), vec![id("f", 3), it_args()]), src(2))];
    assert_eq!(extdot(input), expected);
}

#[test]
fn bare_call_of_path() {
    // path.[File::open]
    let input = vec![id("path", 0), p('.', 1), bracket(vec![id("File", 3), pj(':', 4), p(':', 5), id("open", 6)], 2)];
    let expected = vec![block(
        with(binding(vec![id("path", 0)]), vec![id("File", 3), pj(':', 4), p(':', 5), id("open", 6), it_args()]),
        src(2),
    )];
    assert_eq!(extdot(input), expected);
}

#[test]
fn implicit_method_call() {
    // v.[pow(2)]
    let input = vec![id("v", 0), p('.', 1), bracket(vec![id("pow", 3), paren(vec![lit("2", 5)], 4)], 2)];
    let expected = vec![block(
        with(binding(vec![id("v", 0)]), vec![it(), site_p('.'), id("pow", 3), paren(vec![lit("2", 5)], 4)]),
        src(2),
    )];
    assert_eq!(extdot(input), expected);
}

#[test]
fn implicit_method_only_before_first_call() {
    // v.[a().b()]
    let input = vec![
        id("v", 0),
        p('.', 1),
        bracket(vec![id("a", 3), paren(vec![], 4), p('.', 5), id("b", 6), paren(vec![], 7)], 2),
    ];
    let expected = vec![block(
        with(
            binding(vec![id("v", 0)]),
            vec![it(), site_p('.'), id("a", 3), paren(vec![], 4), p('.', 5), id("b", 6), paren(vec![], 7)],
        ),
        src(2),
    )];
    assert_eq!(extdot(input), expected);
}

#[test]
fn call_with_placeholder_argument_kept() {
    // v.[f(it)]: the placeholder inside the call keeps the form as written.
    let input = vec![id("v", 0), p('.', 1), bracket(vec![id("f", 3), paren(vec![id("it", 5)], 4)], 2)];
    let expected = vec![block(with(binding(vec![id("v", 0)]), vec![id("f", 3), paren(vec![it()], 4)]), src(2))];
    assert_eq!(extdot(input), expected);
}

#[test]
fn placeholder_rebound_at_depth() {
    // v.[it + (it * 2)]
    let input = vec![
        id("v", 0),
        p('.', 1),
        bracket(vec![id("it", 3), p('+', 4), paren(vec![id("it", 6), p('*', 7), lit("2", 8)], 5)], 2),
    ];
    let expected = vec![block(
        with(binding(vec![id("v", 0)]), vec![it(), p('+', 4), paren(vec![it(), p('*', 7), lit("2", 8)], 5)]),
        src(2),
    )];
    assert_eq!(extdot(input), expected);
}

#[test]
fn trailing_comma_yields_receiver() {
    // x.[f,]
    let input = vec![id("x", 0), p('.', 1), bracket(vec![id("f", 3), p(',', 4)], 2)];
    let expected = vec![block(
        with(binding(vec![id("x", 0)]), vec![id("f", 3), it_args(), site_p(';'), it()]),
        src(2),
    )];
    assert_eq!(extdot(input), expected);
}

#[test]
fn nested_sugar_expands_inside_first() {
    // x.[y.[g]]
    let input = vec![
        id("x", 0),
        p('.', 1),
        bracket(vec![id("y", 3), p('.', 4), bracket(vec![id("g", 6)], 5)], 2),
    ];
    let inner = block(with(binding(vec![id("y", 3)]), vec![id("g", 6), it_args()]), src(5));
    let expected = vec![block(with(binding(vec![id("x", 0)]), vec![inner]), src(2))];
    assert_eq!(extdot(input), expected);
}

#[test]
fn sugar_inside_ordinary_group() {
    // (x.[f]) + 1
    let input = vec![paren(vec![id("x", 1), p('.', 2), bracket(vec![id("f", 4)], 3)], 0), p('+', 5), lit("1", 6)];
    let inner = block(with(binding(vec![id("x", 1)]), vec![id("f", 4), it_args()]), src(3));
    let expected = vec![paren(vec![inner], 0), p('+', 5), lit("1", 6)];
    assert_eq!(extdot(input), expected);
}

#[test]
fn chained_sugar_composes() {
    // x.[f].[g]
    let input = vec![
        id("x", 0),
        p('.', 1),
        bracket(vec![id("f", 3)], 2),
        p('.', 4),
        bracket(vec![id("g", 6)], 5),
    ];
    let first = block(with(binding(vec![id("x", 0)]), vec![id("f", 3), it_args()]), src(2));
    let expected = vec![block(with(binding(vec![first]), vec![id("g", 6), it_args()]), src(5))];
    assert_eq!(extdot(input), expected);
}

#[test]
fn receiver_starts_after_flush() {
    // let y = x.[f];
    let input = vec![
        id("let", 0),
        id("y", 1),
        p('=', 2),
        id("x", 3),
        p('.', 4),
        bracket(vec![id("f", 6)], 5),
        p(';', 7),
    ];
    let expected = vec![
        id("let", 0),
        id("y", 1),
        p('=', 2),
        block(with(binding(vec![id("x", 3)]), vec![id("f", 6), it_args()]), src(5)),
        p(';', 7),
    ];
    assert_eq!(extdot(input), expected);
}

#[test]
fn lone_colon_ends_chain() {
    // a : b.[f]: a lone colon after an identifier is a type ascription, not a path.
    let input = vec![id("a", 0), p(':', 1), id("b", 2), p('.', 3), bracket(vec![id("f", 5)], 4)];
    let expected = vec![
        id("a", 0),
        p(':', 1),
        block(with(binding(vec![id("b", 2)]), vec![id("f", 5), it_args()]), src(4)),
    ];
    assert_eq!(extdot(input), expected);
}

#[test]
fn try_and_generics_continue_chain() {
    // a::<T>::new()?.[f]
    let receiver = vec![
        id("a", 0),
        pj(':', 1),
        p(':', 2),
        p('<', 3),
        id("T", 4),
        p('>', 5),
        pj(':', 6),
        p(':', 7),
        id("new", 8),
        paren(vec![], 9),
        p('?', 10),
    ];
    let input = with(
        vec![
            id("a", 0),
            pj(':', 1),
            p(':', 2),
            p('<', 3),
            id("T", 4),
            p('>', 5),
            pj(':', 6),
            p(':', 7),
            id("new", 8),
            paren(vec![], 9),
            p('?', 10),
        ],
        vec![p('.', 11), bracket(vec![id("f", 13)], 12)],
    );
    let expected = vec![block(with(binding(receiver), vec![id("f", 13), it_args()]), src(12))];
    assert_eq!(extdot(input), expected);
}

#[test]
fn invisible_group_ends_chain() {
    let input = vec![grp(Delimiter::Invisible, vec![id("a", 1)], 0), id("b", 2), p('.', 3), bracket(vec![id("f", 5)], 4)];
    let expected = vec![
        grp(Delimiter::Invisible, vec![id("a", 1)], 0),
        block(with(binding(vec![id("b", 2)]), vec![id("f", 5), it_args()]), src(4)),
    ];
    assert_eq!(extdot(input), expected);
}

#[test]
fn similar_names_are_not_the_placeholder() {
    // v.[its(x)]: `its` is not the placeholder, so this is a method call.
    let input = vec![id("v", 0), p('.', 1), bracket(vec![id("its", 3), paren(vec![id("x", 5)], 4)], 2)];
    let expected = vec![block(
        with(binding(vec![id("v", 0)]), vec![it(), site_p('.'), id("its", 3), paren(vec![id("x", 5)], 4)]),
        src(2),
    )];
    assert_eq!(extdot(input), expected);
}

#[test]
fn expression_entry_wraps_in_block() {
    let input = vec![id("x", 0), p('.', 1), bracket(vec![id("f", 3)], 2)];
    let inner = block(with(binding(vec![id("x", 0)]), vec![id("f", 3), it_args()]), src(2));
    assert_eq!(expr(input), vec![block(vec![inner], Span::CallSite)]);
    assert_eq!(expr(vec![]), vec![block(vec![], Span::CallSite)]);
}

#[test]
fn item_entry_is_flat() {
    let input = vec![id("x", 0), p('.', 1), bracket(vec![id("f", 3)], 2), p(';', 4)];
    let inner = block(with(binding(vec![id("x", 0)]), vec![id("f", 3), it_args()]), src(2));
    assert_eq!(item(input), vec![inner, p(';', 4)]);
}

#[test]
fn minus_sign_is_not_part_of_receiver() {
    // -5.[it.abs()]: as with `-5.abs()`, the sign applies to the result.
    let input = vec![
        p('-', 0),
        lit("5", 1),
        p('.', 2),
        bracket(vec![id("it", 4), p('.', 5), id("abs", 6), paren(vec![], 7)], 3),
    ];
    let expected = vec![
        p('-', 0),
        block(with(binding(vec![lit("5", 1)]), vec![it(), p('.', 5), id("abs", 6), paren(vec![], 7)]), src(3)),
    ];
    assert_eq!(extdot(input), expected);
}
