use http_log_to_statsd::{Branch, ErrorKind, FieldError, Parser, Stat, MAX_DEPTH};

fn parse_line(line: &str) -> Vec<Stat> {
    let mut p = Parser::new();
    p.parse_line(line)
}

fn errors_of(line: &str) -> Vec<(String, FieldError)> {
    let mut p = Parser::new();
    p.parse_line_with_errors(line).1
}

fn field(f: &str) -> Result<Option<Stat>, FieldError> {
    let mut p = Parser::new();
    p.parse_field(f)
}

fn incr(key: &str) -> Stat {
    Stat::Incr(key.to_string())
}

fn avg(key: &str, val: u64) -> Stat {
    Stat::Avg(key.to_string(), val)
}

fn plain(kind: ErrorKind) -> FieldError {
    FieldError { kind, within: Vec::new() }
}

#[test]
fn increment_takes_whole_name() {
    assert_eq!(parse_line("+GET"), vec![incr("GET")]);
    assert_eq!(parse_line("+a.b-c_d"), vec![incr("a.b-c_d")]);
}

#[test]
fn status_class_uses_second_character_only() {
    assert_eq!(parse_line("x5"), vec![incr("5xx")]);
    assert_eq!(parse_line("x5anything"), vec![incr("5xx")]);
    assert_eq!(parse_line("x404"), vec![incr("4xx")]);
}

#[test]
fn suffix_is_replaced_not_appended() {
    assert_eq!(parse_line(">_a >_b +n"), vec![incr("n_b")]);
    assert_eq!(parse_line(">_a x2"), vec![incr("2xx_a")]);
}

#[test]
fn suffix_does_not_outlive_the_line() {
    let mut p = Parser::new();
    assert_eq!(p.parse_line(">SUF +NAME"), vec![incr("NAMESUF")]);
    assert_eq!(p.parse_line("+NAME"), vec![incr("NAME")]);
}

#[test]
fn scaled_sample_exact_values() {
    assert_eq!(parse_line("~t:1.52*1000"), vec![avg("t", 1520)]);
    assert_eq!(parse_line("~t:2.5*3"), vec![avg("t", 7)]);
    assert_eq!(parse_line("~t:13*69.2"), vec![avg("t", 899)]);
    assert_eq!(parse_line("~k:.5*10"), vec![avg("k", 5)]);
    assert_eq!(parse_line("~k:+4"), vec![avg("k", 4)]);
}

#[test]
fn scaled_sample_unreadable_parts_fall_back() {
    assert_eq!(parse_line("~k:abc"), vec![avg("k", 0)]);
    assert_eq!(parse_line("~k:"), vec![avg("k", 0)]);
    assert_eq!(parse_line("~k:zz*5"), vec![avg("k", 5)]);
    assert_eq!(parse_line("~k:2*abc"), vec![avg("k", 0)]);
    assert_eq!(parse_line("~k:a.b*6"), vec![avg("k", 6)]);
    assert_eq!(parse_line("~k:1.5*x.y"), vec![avg("k", 0)]);
}

#[test]
fn scaled_sample_is_clamped() {
    assert_eq!(parse_line("~k:-5"), vec![avg("k", 0)]);
    assert_eq!(parse_line("~k:-1.5*2"), vec![avg("k", 0)]);
    assert_eq!(parse_line("~k:9223372036854775807*2"), vec![avg("k", 9223372036854775807)]);
    assert_eq!(parse_line("~k:-9223372036854775808*-1"), vec![avg("k", 9223372036854775807)]);
}

#[test]
fn average_key_takes_suffix() {
    assert_eq!(parse_line(">.s ~key:3"), vec![avg("key.s", 3)]);
}

#[test]
fn conditionals_resolve_in_order() {
    assert_eq!(parse_line("?0<1;+a"), vec![incr("a")]);
    assert_eq!(parse_line("?0>1;+b"), Vec::<Stat>::new());
    assert_eq!(parse_line("?7.2<7.3;+c;+d"), vec![incr("c")]);
    assert_eq!(parse_line("?2<1;;?3<4;+in ?2<1;+a;?5=5;+b;+c"), vec![incr("in"), incr("b")]);
    assert_eq!(field("?1<2;?3<4;+in"), Err(FieldError {
        kind: ErrorKind::BadConditionalArity,
        within: vec![Branch::If],
    }));
}

#[test]
fn conditional_else_may_hold_semicolons() {
    assert_eq!(parse_line("?1>2;+a;?1<2;+b"), vec![incr("b")]);
}

#[test]
fn string_comparison_is_by_code_point() {
    assert_eq!(parse_line("?'David'<'david';+x"), vec![incr("x")]);
    assert_eq!(parse_line("?''<'a';+y"), vec![incr("y")]);
    assert_eq!(parse_line("?'ab'>'a';+z"), vec![incr("z")]);
    assert_eq!(parse_line("?'ab'='ab';+w"), vec![incr("w")]);
}

#[test]
fn decimal_comparison_is_exact() {
    assert_eq!(parse_line("?0.1=0.10;+a"), vec![incr("a")]);
    assert_eq!(parse_line("?-0.5<0.25;+b"), vec![incr("b")]);
    assert_eq!(parse_line("?3.=3;+c"), vec![incr("c")]);
}

#[test]
fn decimal_exponents() {
    assert_eq!(parse_line("~k:1.0*1e3"), vec![avg("k", 1000)]);
    assert_eq!(parse_line("~k:2.5e-1*8"), vec![avg("k", 2)]);
    assert_eq!(parse_line("~k:1.5E2"), vec![avg("k", 150)]);
    assert_eq!(parse_line("~k:1.5e30*1.0"), vec![avg("k", 9223372036854775807)]);
    assert_eq!(parse_line("~k:1e-40*1.0"), vec![avg("k", 0)]);
    assert_eq!(parse_line("~k:7.e+1"), vec![avg("k", 70)]);
    assert_eq!(field("?1.5<1e3;+a"), Ok(Some(incr("a"))));
    assert_eq!(parse_line("?1.5E-2<0.02;+a"), vec![incr("a")]);
    assert_eq!(parse_line("?1e2=100.0;+b"), vec![incr("b")]);
    assert_eq!(parse_line("?-2.0e30<1.0;+c"), vec![incr("c")]);
    assert_eq!(parse_line("?5.0>1e-9999;+d"), vec![incr("d")]);
}

#[test]
fn mixed_quoting_is_an_error() {
    assert_eq!(parse_line("?'str'>0;+j"), Vec::<Stat>::new());
    let errors = errors_of("?'str'>0;+j");
    assert_eq!(errors, vec![("?'str'>0;+j".to_string(), plain(ErrorKind::BadQuotedString))]);
}

#[test]
fn envelope_is_stripped() {
    let mut p = Parser::new();
    let (stats, errors) = p.parse_line_with_errors("<190>Sep 3 15:40:50 host app: http +ok");
    assert_eq!(stats, vec![incr("ok")]);
    assert_eq!(errors, vec![("http".to_string(), plain(ErrorKind::UnknownFieldKind))]);
}

#[test]
fn envelope_without_marker_is_kept() {
    let mut p = Parser::new();
    let (stats, errors) = p.parse_line_with_errors("<190> +a");
    assert_eq!(stats, vec![incr("a")]);
    assert_eq!(errors, vec![("<190>".to_string(), plain(ErrorKind::UnknownFieldKind))]);
    assert_eq!(parse_line("<"), Vec::<Stat>::new());
}

#[test]
fn empty_and_blank_lines_give_nothing() {
    assert_eq!(parse_line(""), Vec::<Stat>::new());
    assert_eq!(parse_line(" \t  "), Vec::<Stat>::new());
    assert_eq!(errors_of("   ").len(), 0);
}

#[test]
fn unicode_whitespace_separates_tokens() {
    assert_eq!(parse_line("+a\u{3000}+b\u{a0}+c\n+d"), vec![incr("a"), incr("b"), incr("c"), incr("d")]);
}

#[test]
fn errors_do_not_stop_the_line() {
    let mut p = Parser::new();
    let (stats, errors) = p.parse_line_with_errors("+a + ~nokey +b");
    assert_eq!(stats, vec![incr("a"), incr("b")]);
    assert_eq!(
        errors,
        vec![
            ("+".to_string(), plain(ErrorKind::FieldTooShort)),
            ("~nokey".to_string(), plain(ErrorKind::MissingAverageValue)),
        ]
    );
}

#[test]
fn each_error_kind() {
    assert_eq!(field("+"), Err(plain(ErrorKind::FieldTooShort)));
    assert_eq!(field("é"), Err(plain(ErrorKind::FieldTooShort)));
    assert_eq!(field("GET"), Err(plain(ErrorKind::UnknownFieldKind)));
    assert_eq!(field("~abc"), Err(plain(ErrorKind::MissingAverageValue)));
    assert_eq!(field("?1<2"), Err(plain(ErrorKind::BadConditionalArity)));
    assert_eq!(field("?12;+a"), Err(plain(ErrorKind::MissingOperator)));
    assert_eq!(field("?bad'=bad';+g"), Err(plain(ErrorKind::BadQuotedString)));
    assert_eq!(field("?'<'';+g"), Err(plain(ErrorKind::BadQuotedString)));
    assert_eq!(field("?x.5<1;+a"), Err(plain(ErrorKind::NotAFloat("x.5".to_string()))));
    assert_eq!(field("?1.5<1e;+a"), Err(plain(ErrorKind::NotAFloat("1e".to_string()))));
    assert_eq!(field("?1.0<1e10000;+a"), Err(plain(ErrorKind::NotAFloat("1e10000".to_string()))));
    assert_eq!(field("?x<y;nope"), Err(plain(ErrorKind::NotAnInteger("x".to_string()))));
    assert_eq!(field("?1<y;+a"), Err(plain(ErrorKind::NotAnInteger("y".to_string()))));
    assert_eq!(
        field("?1<9223372036854775808;+a"),
        Err(plain(ErrorKind::NotAnInteger("9223372036854775808".to_string())))
    );
}

#[test]
fn branch_errors_carry_their_branch() {
    assert_eq!(
        field("?1<2;+"),
        Err(FieldError { kind: ErrorKind::FieldTooShort, within: vec![Branch::If] })
    );
    assert_eq!(
        field("?1>2;+a;nope"),
        Err(FieldError { kind: ErrorKind::UnknownFieldKind, within: vec![Branch::Else] })
    );
    assert_eq!(
        field("?1>2;;?1<2;+"),
        Err(FieldError { kind: ErrorKind::FieldTooShort, within: vec![Branch::If, Branch::Else] })
    );
    assert_eq!(
        field("?1<0;;x"),
        Err(FieldError { kind: ErrorKind::FieldTooShort, within: vec![Branch::Else] })
    );
    assert_eq!(field("?1<0;;"), Ok(None));
}

#[test]
fn nesting_is_bounded() {
    let mut deep = String::new();
    for _ in 0..MAX_DEPTH {
        deep.push_str("?2<1;;");
    }
    deep.push_str("+a");
    assert_eq!(field(&deep), Ok(Some(incr("a"))));
    let mut deeper = String::from("?2<1;;");
    deeper.push_str(&deep);
    let r = field(&deeper);
    let expected = FieldError {
        kind: ErrorKind::NestingTooDeep,
        within: vec![Branch::Else; MAX_DEPTH as usize],
    };
    assert_eq!(r, Err(expected));
}

#[test]
fn field_uses_and_sets_the_suffix() {
    let mut p = Parser::new();
    assert_eq!(p.parse_field(">_s"), Ok(None));
    assert_eq!(p.parse_field("+n"), Ok(Some(incr("n_s"))));
    assert_eq!(p.parse_field("?1<2;>_t"), Ok(None));
    assert_eq!(p.parse_field("x3"), Ok(Some(incr("3xx_t"))));
}
