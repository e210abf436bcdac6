use ivo::operator::Operator;
use ivo::span::Span;

#[test]
fn empty_span_is_first_byte() {
    assert_eq!(Span::empty(4), Span { start: 0, end: 1, source_id: 4 });
}

#[test]
fn concat_runs_from_first_start_to_second_end() {
    let a = Span { start: 2, end: 5, source_id: 1 };
    let b = Span { start: 7, end: 9, source_id: 1 };
    assert_eq!(a.concat(&b), Span { start: 2, end: 9, source_id: 1 });
    assert_eq!(a.concat(&a), a);
}

#[test]
fn concat_is_associative() {
    let a = Span { start: 0, end: 1, source_id: 0 };
    let b = Span { start: 3, end: 4, source_id: 0 };
    let c = Span { start: 8, end: 10, source_id: 0 };
    assert_eq!(a.concat(&b).concat(&c), a.concat(&b.concat(&c)));
}

#[test]
fn splat_to_end_is_next_byte() {
    let a = Span { start: 2, end: 5, source_id: 1 };
    assert_eq!(a.splat_to_end(), Span { start: 5, end: 6, source_id: 1 });
}

#[test]
fn operators_show_their_symbols() {
    assert_eq!(Operator::Plus.as_str(), "+");
    assert_eq!(Operator::Minus.as_str(), "-");
    assert_eq!(Operator::Star.as_str(), "*");
    assert_eq!(Operator::Slash.as_str(), "/");
    assert_eq!(Operator::Modulo.as_str(), "%");
}

#[test]
fn multiplicative_operators_bind_tighter() {
    assert!(Operator::Star.binding_power() > Operator::Plus.binding_power());
    assert_eq!(Operator::Slash.binding_power(), Operator::Modulo.binding_power());
    assert_eq!(Operator::Plus.binding_power(), Operator::Minus.binding_power());
    assert!(Operator::Minus.can_prefix() && Operator::Plus.can_prefix());
    assert!(!Operator::Star.can_prefix());
    assert!(Operator::Modulo.can_infix());
}
