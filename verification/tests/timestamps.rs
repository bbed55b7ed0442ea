use spotly::duration::Duration;
use spotly::lrc::{try_parse_enhanced_lrc, try_parse_line_lrc, TimestampOverflow};
use spotly::timestamp::parse_timestamp;

#[test]
fn timestamp_ignores_surrounding_whitespace() {
    assert_eq!(parse_timestamp("  1:05 \t"), Some(Duration::from_secs(65)));
}

#[test]
fn timestamp_minutes_take_a_plus_sign() {
    assert_eq!(
        parse_timestamp("+2:00.5"),
        Some(Duration::from_millis(120_500))
    );
}

#[test]
fn timestamp_seconds_take_an_exponent() {
    assert_eq!(parse_timestamp("1.5e1"), Some(Duration::from_secs(15)));
    assert_eq!(parse_timestamp("1E-3"), Some(Duration::from_millis(1)));
    assert_eq!(parse_timestamp(".5"), Some(Duration::from_millis(500)));
    assert_eq!(parse_timestamp("5."), Some(Duration::from_secs(5)));
}

#[test]
fn timestamp_rounds_to_the_nearest_nanosecond() {
    assert_eq!(
        parse_timestamp("0.0000000015"),
        Some(Duration::checked_new(0, 2).unwrap())
    );
    assert_eq!(
        parse_timestamp("0.0000000014"),
        Some(Duration::checked_new(0, 1).unwrap())
    );
    assert_eq!(parse_timestamp("1e-30"), Some(Duration::zero()));
}

#[test]
fn timestamp_halves_round_to_even() {
    assert_eq!(
        parse_timestamp("0.0009765625"),
        Some(Duration::checked_new(0, 976_562).unwrap())
    );
    assert_eq!(
        parse_timestamp("0.0000000025"),
        Some(Duration::checked_new(0, 2).unwrap())
    );
    assert_eq!(
        parse_timestamp("0.00000000250001"),
        Some(Duration::checked_new(0, 3).unwrap())
    );
}

#[test]
fn timestamp_refuses_negative_seconds_but_zero() {
    assert_eq!(parse_timestamp("-0.000"), Some(Duration::zero()));
    assert_eq!(parse_timestamp("-1"), None);
    assert_eq!(parse_timestamp("1:-5"), None);
    assert_eq!(parse_timestamp("-1:05"), None);
}

#[test]
fn timestamp_refuses_what_is_no_number() {
    assert_eq!(parse_timestamp(""), None);
    assert_eq!(parse_timestamp("   "), None);
    assert_eq!(parse_timestamp("abc"), None);
    assert_eq!(parse_timestamp("1:"), None);
    assert_eq!(parse_timestamp(":5"), None);
    assert_eq!(parse_timestamp("inf"), None);
    assert_eq!(parse_timestamp("NaN"), None);
    assert_eq!(parse_timestamp("1e"), None);
    assert_eq!(parse_timestamp("."), None);
    assert_eq!(parse_timestamp("1 :05"), None);
    assert_eq!(parse_timestamp("1: 05"), None);
}

#[test]
fn timestamp_minutes_beyond_u64_are_no_timestamp() {
    assert_eq!(parse_timestamp("18446744073709551616:00"), None);
}

#[test]
fn oversized_timestamp_is_reported() {
    assert_eq!(
        try_parse_line_lrc("[18446744073709551615:00]x").err(),
        Some(TimestampOverflow)
    );
    assert_eq!(
        try_parse_enhanced_lrc("<1e25>x").err(),
        Some(TimestampOverflow)
    );
    assert!(try_parse_line_lrc("[00:01]x").is_ok());
}

#[test]
fn timestamp_read_as_infinity_is_no_timestamp() {
    assert_eq!(parse_timestamp("1e400"), None);
    assert_eq!(parse_timestamp("1:1e400"), None);
    assert_eq!(parse_timestamp("179769313486231580793728971405303415079934132710037826936173778980444968292764750946649017977587207096330286416692887910946555547851940402630657488671505820681908902000708383676273854845817711531764475730270069855571366959622842914819860834936475292719074168444365510704342711559699508093042880177904174497792"), None);
    assert_eq!(parse_timestamp("17976931348623158079372897140530341507993413271003782693617377898044496829276475094664901797758720709633028641669288791094655554785194040263065748867150582068190890200070838367627385484581771153176447573027006985557136695962284291481986083493647529271907416844436551070434271155969950809304288017790417449779200.0e-2"), None);
    assert!(matches!(try_parse_enhanced_lrc("<1e400>x"), Ok(None)));
    assert!(matches!(try_parse_line_lrc("[1e400]x"), Ok(None)));
}

#[test]
fn finite_but_oversized_timestamp_is_reported() {
    assert_eq!(
        try_parse_enhanced_lrc("<179769313486231580793728971405303415079934132710037826936173778980444968292764750946649017977587207096330286416692887910946555547851940402630657488671505820681908902000708383676273854845817711531764475730270069855571366959622842914819860834936475292719074168444365510704342711559699508093042880177904174497791>x").err(),
        Some(TimestampOverflow)
    );
    assert_eq!(
        try_parse_enhanced_lrc("<0.179769313486231580793728971405303415079934132710037826936173778980444968292764750946649017977587207096330286416692887910946555547851940402630657488671505820681908902000708383676273854845817711531764475730270069855571366959622842914819860834936475292719074168444365510704342711559699508093042880177904174497791e309>x").err(),
        Some(TimestampOverflow)
    );
    assert_eq!(
        try_parse_enhanced_lrc("<1e308>x").err(),
        Some(TimestampOverflow)
    );
}

#[test]
fn negative_seconds_read_as_zero_are_zero() {
    assert_eq!(parse_timestamp("-1e-400"), Some(Duration::zero()));
    assert_eq!(parse_timestamp("1:-1e-400"), Some(Duration::from_secs(60)));
    assert_eq!(parse_timestamp("-24703282292062327208828439643411068618252990130716238221279284125033775363510437593264991818081799618989828234772285886546332835517796989819938739800539093906315035659515570226392290858392449105184435931802849936536152500319370457678249219365623669863658480757001585769269903706311928279558551332927834338409351978015531246597263579574622766465272827220056374006485499977096599470454020828166226237857393450736339007967761930577506740176324673600968951340535537458516661134223766678604162159680461914467291840300530057530849048765391711386591646239524912623653881879636239373280423891018672348497668235089863388587925628302755995657524455507255189313690836254779186948667994968324049705821028513185451396213837722826145437693412532098591327667236328125e-1075"), Some(Duration::zero()));
    assert_eq!(parse_timestamp("-24703282292062327208828439643411068618252990130716238221279284125033775363510437593264991818081799618989828234772285886546332835517796989819938739800539093906315035659515570226392290858392449105184435931802849936536152500319370457678249219365623669863658480757001585769269903706311928279558551332927834338409351978015531246597263579574622766465272827220056374006485499977096599470454020828166226237857393450736339007967761930577506740176324673600968951340535537458516661134223766678604162159680461914467291840300530057530849048765391711386591646239524912623653881879636239373280423891018672348497668235089863388587925628302755995657524455507255189313690836254779186948667994968324049705821028513185451396213837722826145437693412532098591327667236328126e-1075"), None);
    assert_eq!(parse_timestamp("-1e-320"), None);
}
