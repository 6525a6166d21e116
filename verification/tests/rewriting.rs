use count_macro::matcher::find_placeholder;
use count_macro::registry::Registry;
use count_macro::rewrite::rewrite_tokens;
use count_macro::token::{Delimiter, Token};
use count_macro::{count, wrapping_count};

fn ident(text: &str, span: u64) -> Token {
    Token::Ident { text: text.as_bytes().to_vec(), span }
}

fn literal(text: &str) -> Token {
    Token::Literal { text: text.as_bytes().to_vec() }
}

fn other(text: &str) -> Token {
    Token::Other { text: text.as_bytes().to_vec() }
}

fn group(delim: Delimiter, children: Vec<Token>) -> Token {
    Token::Group { delim, children }
}

fn tokens_eq(a: &[Token], b: &[Token]) -> bool {
    a.len() == b.len() && a.iter().zip(b.iter()).all(|(x, y)| x.same_as(y))
}

#[test]
fn no_placeholder_is_identity() {
    let input = vec![
        ident("alpha", 1),
        literal("42"),
        other("+"),
        group(Delimiter::Parenthesis, vec![ident("beta", 2), other(",")]),
    ];
    let out = count(&input).unwrap();
    assert!(tokens_eq(&out, &input));
}

#[test]
fn default_counter_counts_from_zero() {
    let input = vec![ident("_int_", 0), ident("_int_", 0), ident("_int_", 0)];
    let out = count(&input).unwrap();
    let expected = vec![literal("0"), literal("1"), literal("2")];
    assert!(tokens_eq(&out, &expected));
}

#[test]
fn named_counters_advance_independently() {
    let input = vec![
        ident("a_int_", 9),
        ident("_int_name_", 9),
        ident("a_int_", 9),
        ident("_int_name_", 9),
        ident("a_int_", 9),
    ];
    let out = count(&input).unwrap();
    let expected = vec![
        ident("a0", 9),
        literal("0"),
        ident("a1", 9),
        literal("1"),
        ident("a2", 9),
    ];
    assert!(tokens_eq(&out, &expected));
}

#[test]
fn whole_match_yields_literal_embedded_yields_ident() {
    // With the default counter already at 3: `_int_` becomes the literal 3,
    // `a_int_` becomes the identifier a3.
    let mut reg = Registry::new();
    reg.set(None, 3);
    let out = rewrite_tokens(&vec![ident("_int_", 5)], &mut reg, false).unwrap();
    assert!(tokens_eq(&out, &[literal("3")]));

    let mut reg2 = Registry::new();
    reg2.set(None, 3);
    let out2 = rewrite_tokens(&vec![ident("a_int_", 5)], &mut reg2, false).unwrap();
    assert!(tokens_eq(&out2, &[ident("a3", 5)]));
}

#[test]
fn span_is_preserved_on_embedded_match() {
    let out = count(&vec![ident("x_int_", 77)]).unwrap();
    assert!(tokens_eq(&out, &[ident("x0", 77)]));
}

#[test]
fn wrapping_at_maximum_yields_zero() {
    let mut reg = Registry::new();
    reg.set(None, usize::MAX);
    let input = vec![ident("_int_", 0), ident("_int_", 0)];
    let out = rewrite_tokens(&input, &mut reg, true).unwrap();
    let max_text = format!("{}", usize::MAX);
    let expected = vec![literal(&max_text), literal("0")];
    assert!(tokens_eq(&out, &expected));
}

#[test]
fn panicking_at_maximum_yields_diagnostic_and_no_tokens() {
    let mut reg = Registry::new();
    reg.set(None, usize::MAX);
    let input = vec![ident("_int_", 0), ident("_int_", 0)];
    let r = rewrite_tokens(&input, &mut reg, false);
    match r {
        Ok(_) => panic!("overflow must fail under the panicking policy"),
        Err(e) => assert_eq!(
            e.message(),
            "Counter overflown, try using wrapping_count or changing type"
        ),
    }
}

#[test]
fn overflow_aborts_whole_invocation() {
    // The first identifier alone would rewrite fine; the overflow on the
    // second leaves no output at all.
    let mut reg = Registry::new();
    reg.set(Some(b"n".to_vec()), usize::MAX);
    let input = vec![ident("a_int_", 0), ident("_int_n_", 0)];
    assert!(rewrite_tokens(&input, &mut reg, false).is_err());
}

#[test]
fn nested_groups_count_in_preorder() {
    // (_int_ (_int_)) _int_  becomes  (0 (1)) 2
    let input = vec![
        group(
            Delimiter::Parenthesis,
            vec![
                ident("_int_", 0),
                group(Delimiter::Parenthesis, vec![ident("_int_", 0)]),
            ],
        ),
        ident("_int_", 0),
    ];
    let out = count(&input).unwrap();
    let expected = vec![
        group(
            Delimiter::Parenthesis,
            vec![literal("0"), group(Delimiter::Parenthesis, vec![literal("1")])],
        ),
        literal("2"),
    ];
    assert!(tokens_eq(&out, &expected));
}

#[test]
fn second_run_is_identity() {
    let input = vec![
        group(Delimiter::Brace, vec![ident("a_int_", 3), ident("_int_b_", 4)]),
        ident("_int_", 5),
    ];
    let once = count(&input).unwrap();
    let twice = count(&once).unwrap();
    assert!(tokens_eq(&twice, &once));
    let thrice = wrapping_count(&twice);
    assert!(tokens_eq(&thrice, &twice));
}

#[test]
fn group_delimiter_is_preserved() {
    let input = vec![group(Delimiter::Bracket, vec![ident("_int_", 0)])];
    let out = wrapping_count(&input);
    assert!(tokens_eq(&out, &[group(Delimiter::Bracket, vec![literal("0")])]));
}

#[test]
fn literal_and_other_tokens_never_move_a_counter() {
    let input = vec![literal("_int_"), other("_int_"), ident("_int_", 0)];
    let out = count(&input).unwrap();
    // The placeholder-shaped literal and punctuation pass through; the real
    // identifier still reads 0, so nothing advanced the counter before it.
    let expected = vec![literal("_int_"), other("_int_"), literal("0")];
    assert!(tokens_eq(&out, &expected));
}

#[test]
fn double_underscore_is_a_default_match_with_a_tail() {
    // `_int__`: the bare marker matches, the second underscore stays.
    let out = count(&vec![ident("_int__", 0)]).unwrap();
    assert!(tokens_eq(&out, &[ident("0_", 0)]));
}

#[test]
fn whitespace_breaks_a_name_segment() {
    // `_int_a b_` has no well-formed name, so only the bare marker matches.
    let out = count(&vec![ident("_int_a b_", 0)]).unwrap();
    assert!(tokens_eq(&out, &[ident("0a b_", 0)]));
}

#[test]
fn name_segment_is_read_greedily() {
    // In `x_int_y_int_z` the first marker closes over the name `y`, so the
    // remainder holds no further occurrence.
    let out = count(&vec![ident("x_int_y_int_z", 0)]).unwrap();
    assert!(tokens_eq(&out, &[ident("x0int_z", 0)]));
}

#[test]
fn adjacent_markers_are_both_consumed() {
    // `_int__int_` is two embedded default occurrences: 0 then 1.
    let out = count(&vec![ident("_int__int_", 0)]).unwrap();
    assert!(tokens_eq(&out, &[ident("01", 0)]));
}

#[test]
fn named_whole_match_counts_its_own_name() {
    let input = vec![ident("_int_a_", 0), ident("_int_a_", 0), ident("_int_", 0)];
    let out = count(&input).unwrap();
    let expected = vec![literal("0"), literal("1"), literal("0")];
    assert!(tokens_eq(&out, &expected));
}

#[test]
fn find_placeholder_reports_span_and_name() {
    let text = b"ab_int_cd_x".to_vec();
    let occ = find_placeholder(&text, 0).unwrap();
    assert_eq!(occ.start, 2);
    assert_eq!(occ.end, 10);
    assert_eq!(occ.name, Some(b"cd".to_vec()));

    let bare = b"_int_".to_vec();
    let occ2 = find_placeholder(&bare, 0).unwrap();
    assert_eq!(occ2.start, 0);
    assert_eq!(occ2.end, 5);
    assert_eq!(occ2.name, None);

    assert!(find_placeholder(&b"nothing_here".to_vec(), 0).is_none());
}

#[test]
fn empty_stream_and_empty_identifier_pass_through() {
    let out = count(&vec![]).unwrap();
    assert!(out.is_empty());
    let out2 = count(&vec![ident("", 1), group(Delimiter::Brace, vec![])]).unwrap();
    assert!(tokens_eq(&out2, &[ident("", 1), group(Delimiter::Brace, vec![])]));
}

#[test]
fn registry_reads_zero_until_set() {
    let mut reg = Registry::new();
    assert_eq!(reg.get(&None), 0);
    assert_eq!(reg.get(&Some(b"a".to_vec())), 0);
    reg.set(None, 5);
    reg.set(Some(b"a".to_vec()), 7);
    assert_eq!(reg.get(&None), 5);
    assert_eq!(reg.get(&Some(b"a".to_vec())), 7);
    assert_eq!(reg.get(&Some(b"b".to_vec())), 0);
    reg.set(Some(b"a".to_vec()), 8);
    assert_eq!(reg.get(&Some(b"a".to_vec())), 8);
}
