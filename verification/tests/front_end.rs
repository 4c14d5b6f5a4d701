use luarus::bytecode::chunk::Const;
use luarus::bytecode::value::RtType;
use luarus::compile::literal::{parse, FloatReading, FloatValue};
use luarus::compile::{check, check_tree, compile, literal_bodies};
use luarus::diag::render::render;
use luarus::diag::Diagnostic;
use luarus::rule::Rule;
use luarus::syntax::ast::Stmt;
use luarus::syntax::parser;

/// What the float reader makes of a literal body, as the command line reads it.
fn read_float(body: &str) -> Option<FloatValue> {
    let v: f64 = match body {
        "inf" | "+inf" => f64::INFINITY,
        "-inf" => f64::NEG_INFINITY,
        "nan" => f64::NAN,
        _ => body.parse().ok()?,
    };
    Some(FloatValue { bits64: v.to_bits(), bits32: (v as f32).to_bits(), shown: format!("{v}") })
}

fn floats(src: &str) -> Vec<FloatReading> {
    literal_bodies(src)
        .into_iter()
        .map(|body| FloatReading { value: read_float(&body), body })
        .collect()
}

fn diags(src: &str) -> Vec<Diagnostic> {
    match compile(src, "test.lrs", &floats(src)) {
        Ok(_) => panic!("expected a compile error, but the program was accepted"),
        Err(d) => d,
    }
}

fn errors(src: &str) -> Vec<String> {
    diags(src).into_iter().map(|d| d.message).collect()
}

/// The rule cited by the first error.
fn rule(src: &str) -> Rule {
    diags(src)[0].rule
}

fn no_floats() -> Vec<FloatReading> {
    Vec::new()
}

#[test]
fn types_the_same_text_differently() {
    let table = vec![FloatReading { body: "1000".into(), value: read_float("1000") }];
    assert_eq!(parse("1000", RtType::I32, &table).map_err(|_| ()), Ok(Const::Int(1000)));
    assert_eq!(parse("1000", RtType::Str, &table).map_err(|_| ()), Ok(Const::Str("1000".into())));
    assert!(matches!(parse("1000", RtType::F16, &table).unwrap(), Const::F16(_)));
}

#[test]
fn rejects_out_of_range_integers() {
    assert!(parse("300", RtType::U8, &no_floats()).is_err());
    assert!(parse("-1", RtType::U32, &no_floats()).is_err());
    assert!(parse("127", RtType::I8, &no_floats()).is_ok());
    assert!(parse("128", RtType::I8, &no_floats()).is_err());
}

#[test]
fn accepts_separators_and_radixes() {
    assert_eq!(parse("1_000_000", RtType::I32, &no_floats()).map_err(|_| ()), Ok(Const::Int(1_000_000)));
    assert_eq!(parse("0xff", RtType::U8, &no_floats()).map_err(|_| ()), Ok(Const::Uint(255)));
    assert_eq!(parse("0b1010", RtType::I32, &no_floats()).map_err(|_| ()), Ok(Const::Int(10)));
}

#[test]
fn rejects_out_of_range_literals() {
    assert!(errors("var u8 (n) = '300' end")[0].contains("out of range for `u8`"));
    assert!(errors("var i8 (n) = '-129' end")[0].contains("out of range for `i8`"));
    assert!(errors("var f16 (n) = '70000' end")[0].contains("out of range for `f16`"));
}

#[test]
fn refuses_to_convert_between_widths() {
    let e = errors("var i32 (n) = '1' end var i64 (m) = (n) end");
    assert!(e[0].contains("expected `i64`"), "{e:?}");
}

#[test]
fn rejects_a_comparison_with_no_type_on_either_side() {
    // Outside a print list a bare literal still has no type to be read as.
    assert!(errors("var bool (b) = '1' == '2' end")[0].contains("cannot tell what type"));
}

#[test]
fn names_an_undeclared_variable_rather_than_blaming_the_literal() {
    assert!(errors("print[(nope)] end")[0].contains("`(nope)` is not declared"));
}

#[test]
fn suggests_a_near_miss() {
    let d = diags("var i32 (count) = '1' end print[(cont)] end");
    assert!(d[0].help.as_deref().unwrap().contains("(count)"));
}

#[test]
fn rejects_redeclaration() {
    assert!(errors("var i32 (n) = '1' end var i32 (n) = '2' end")[0].contains("already declared"));
}

#[test]
fn rejects_negating_an_unsigned_value() {
    assert!(errors("var u8 (n) = -'1' end")[0].contains("unsigned"));
}

#[test]
fn rejects_arithmetic_on_non_numbers() {
    assert!(errors("var str (a) = 'x' end var str (b) = (a) + 'y' end")[0]
        .contains("not defined for type `str`"));
}

#[test]
fn rejects_chained_comparisons() {
    assert!(errors("var i32 (n) = '1' end var bool (b) = (n) < (n) < (n) end")[0]
        .contains("cannot be chained"));
}

#[test]
fn rejects_unknown_types() {
    assert!(errors("var number (n) = '1' end")[0].contains("unknown type `number`"));
}

#[test]
fn a_lone_statement_still_needs_end() {
    assert!(errors("var i32 (n) = '1'")[0].contains("expected `end`"));
}

#[test]
fn requires_var_after_a_modifier() {
    assert!(errors("global i32 (n) = '1' end")[0].contains("expected `var` after `global`"));
}

#[test]
fn requires_brackets_after_print() {
    assert!(errors("var i32 (n) = '1' end print (n) end")[0].contains("expected `[` after `print`"));
}

#[test]
fn reports_an_unclosed_group() {
    assert!(errors("var i32 (n) = | '1' + '2' end")[0].contains("expected `|` to close"));
}

#[test]
fn rejects_an_escape_where_a_number_belongs() {
    assert!(errors(r#"var i32 (n) = \n end"#)[0].contains("escape is `str`"));
}

#[test]
fn rejects_an_unknown_bare_escape() {
    assert!(errors(r#"print["a" \q] end"#)[0].contains("invalid escape"));
}

#[test]
fn reports_several_errors_at_once() {
    // One bad statement must not hide the ones after it.
    assert_eq!(errors("var u8 (a) = '300' end var u8 (b) = '400' end").len(), 2);
}

#[test]
fn a_declaration_cannot_refer_to_itself() {
    assert!(errors("var i32 (n) = (n) + '1' end")[0].contains("not declared"));
}

#[test]
fn errors_cite_the_rule_they_broke() {
    let cases: &[(&str, Rule)] = &[
        ("var u8 (n) = '300' end", Rule::ValuesMustFit),
        ("var i32 (n) = '1' end var i64 (m) = (n) end", Rule::NoImplicitConversion),
        ("var number (n) = '1' end", Rule::TypesMustExist),
        ("print[(nope)] end", Rule::NamesMustBeDeclared),
        ("var i32 (n) = '1' end var i32 (n) = '2' end", Rule::NamesAreDeclaredOnce),
        ("var u8 (n) = -'1' end", Rule::UnsignedIsNeverNegative),
        ("var str (a) = 'x' end var str (b) = (a) + 'y' end", Rule::ArithmeticIsNumeric),
        ("var bool (b) = '1' == '2' end", Rule::LiteralsNeedAType),
        ("var i32 (n) = '1'", Rule::EndClosesAChain),
        ("var i32 (n) = '1' end print (n) end", Rule::PrintTakesBrackets),
        ("var i32 (n) = | '1' end", Rule::GroupsArePiped),
        ("var i32 (n) = '1' end var bool (b) = (n) < (n) < (n) end", Rule::ComparisonsDoNotChain),
        (r#"var i32 (n) = \n end"#, Rule::EscapesAreText),
        ("var i32 (n) = '1' end @", Rule::LexicalForm),
        ("global i32 (n) = '1' end", Rule::StatementForm),
        ("var i32 (n = '1' end", Rule::NamesAreParenthesised),
    ];
    for (src, expected) in cases {
        assert_eq!(rule(src), *expected, "wrong rule cited for: {src}");
    }
}

#[test]
fn pub_is_exported_and_global_is_not() {
    let src = "global var i32 (hidden) = '1' end pub var i32 (shown) = '2' end";
    let chunk = compile(src, "t.lrs", &floats(src)).unwrap();
    let exported: Vec<_> =
        chunk.globals.iter().filter(|g| g.exported).map(|g| g.name.as_str()).collect();
    assert_eq!(exported, vec!["shown"]);
}

// ------------------------------------------------------------------ the parser

fn parsed(src: &str) -> Vec<Stmt> {
    match parser::parse(src) {
        Ok(p) => p.stmts,
        Err(d) => panic!("expected the program to parse, but: {:?}", d),
    }
}

#[test]
fn chains_give_one_statement_each() {
    assert_eq!(parsed("var i32 (n) = '1', set (n) = (n) + '4', print[(n)] end").len(), 3);
}

#[test]
fn an_if_is_one_statement_with_its_arms() {
    let stmts = parsed("if (a) > '1' { print['x'] end else print[] end }");
    assert_eq!(stmts.len(), 1);
    match &stmts[0] {
        Stmt::If { arms, else_arm, .. } => {
            assert_eq!(arms.len(), 1);
            assert_eq!(arms[0].body.len(), 1);
            assert_eq!(else_arm.len(), 1);
        },
        other => panic!("expected an if, got {other:?}"),
    }
}

#[test]
fn elseif_divides_the_block() {
    let stmts = parsed("if (a) { print['1'] end elseif (b) print['2'] end elseif (c) print['3'] end }");
    match &stmts[0] {
        Stmt::If { arms, else_arm, .. } => {
            assert_eq!(arms.len(), 3);
            assert!(else_arm.is_empty());
        },
        other => panic!("expected an if, got {other:?}"),
    }
}

#[test]
fn an_elseif_after_else_is_refused() {
    let d = parser::parse("if (a) { else elseif (b) }").unwrap_err();
    assert!(d[0].message.contains("`elseif` cannot come after `else`"));
    assert_eq!(d[0].rule, Rule::BlocksAreBraced);
}

#[test]
fn an_unclosed_block_is_reported_at_its_brace() {
    let d = parser::parse("if (a) { print[] end").unwrap_err();
    assert!(d[0].message.contains("unterminated block"));
    assert_eq!(d[0].span.start, 7);
}

#[test]
fn an_unmatched_brace_is_named() {
    let d = parser::parse("} print[] end").unwrap_err();
    assert_eq!(d.len(), 1);
    assert!(d[0].message.contains("unmatched `}`"));
}

#[test]
fn the_parser_resumes_after_end() {
    let d = parser::parse("var i32 (n) = + end var (x) = '1' end print[] end").unwrap_err();
    assert_eq!(d.len(), 2);
    assert!(d[0].message.contains("expected a value"));
    assert!(d[1].message.contains("expected a type after `var`"));
}

#[test]
fn a_typed_literal_needs_its_literal() {
    let d = parser::parse("print[f16 (x)] end").unwrap_err();
    assert!(d[0].message.contains("expected a literal after `f16`"));
    assert_eq!(d[0].rule, Rule::LiteralsNeedAType);
}

#[test]
fn an_unterminated_print_names_its_bracket() {
    let d = parser::parse("print['1'").unwrap_err();
    assert!(d[0].message.contains("unterminated `print`"));
    assert_eq!(d[0].span.start, 5);
}

// --------------------------------------------------------------- the front end

#[test]
fn check_accepts_a_good_program() {
    let src = "var f64 (x) = '1.5' end var i32 (n) = '2' end print[(x) ' ' (n)] end";
    assert!(check(src, &floats(src)).is_ok());
    let checked = check_tree(src, &floats(src)).unwrap();
    assert_eq!(checked.stmts.len(), 3);
    assert_eq!(checked.locals.len(), 2);
}

#[test]
fn check_reports_the_parse_errors_first() {
    let src = "var u8 (n) = '300'";
    let e = check(src, &floats(src)).unwrap_err();
    assert_eq!(e.len(), 1);
    assert_eq!(e[0].rule, Rule::EndClosesAChain);
}

#[test]
fn a_float_the_reader_did_not_see_is_refused() {
    assert!(compile("var f64 (x) = '1.5' end", "t.lrs", &no_floats()).is_err());
}

#[test]
fn literal_bodies_are_trimmed_and_unseparated() {
    assert_eq!(literal_bodies("print[' 1_000 ' \\n (x)] end"), vec!["1000".to_string()]);
    assert!(literal_bodies("print['unterminated").is_empty());
}

#[test]
fn compiled_code_ends_with_halt() {
    let src = "var i32 (n) = '1' end";
    let chunk = compile(src, "t.lrs", &floats(src)).unwrap();
    assert_eq!(chunk.source, "t.lrs");
    assert_eq!(chunk.code.len(), chunk.lines.len());
    assert_eq!(chunk.code.last().map(|op| op.mnemonic()), Some("halt"));
}

#[test]
fn a_doubled_sign_is_refused() {
    for text in ["--5", "-+5", "+-5", "++5"] {
        let e = parse(text, RtType::I32, &no_floats()).unwrap_err();
        assert_eq!(e.rule, Rule::ValuesMustFit);
    }
    assert_eq!(parse("-5", RtType::I32, &no_floats()).unwrap(), Const::Int(-5));
}

#[test]
fn a_rendered_error_shows_the_rule() {
    let src = "var u8 (n) = '300' end";
    let text = render(src, "t.lrs", &diags(src)[0]);
    assert!(text.starts_with("error[values-must-fit]:"), "{text}");
    assert!(text.contains("= rule: a literal must be a valid value"), "{text}");
}

#[test]
fn columns_count_characters_as_a_reader_would() {
    // The column is a character index, not a cell offset: 31 only if the family
    // emoji counted as one character.
    let src = "var i32 (🧑‍🧑‍🧒‍🧒) = '1' end var i32 (🧑‍🧑‍🧒‍🧒) = '2' end";
    let text = render(src, "t.lrs", &diags(src)[0]);
    assert!(text.contains("t.lrs:1:31"), "{text}");
}

#[test]
fn a_rendered_error_lays_out_every_line() {
    let src = "var u8 (n) = '1' end\nvar u8 (m) = '300' end";
    let d = &diags(src)[0];
    let text = render(src, "t.lrs", d);
    let lines: Vec<&str> = text.lines().collect();
    assert_eq!(lines[1], " --> t.lrs:2:14");
    assert_eq!(lines[2], "  |");
    assert_eq!(lines[3], "2 | var u8 (m) = '300' end");
    assert!(lines[4].starts_with("  |              ^"), "{text}");
    assert!(lines[5].starts_with("  = rule: "), "{text}");
}

#[test]
fn white_space_beyond_ascii_is_trimmed() {
    assert_eq!(parse("\u{3000}5\u{a0}", RtType::I32, &no_floats()).unwrap(), Const::Int(5));
    assert_eq!(parse("\u{2003}-7", RtType::I32, &no_floats()).unwrap(), Const::Int(-7));
}
