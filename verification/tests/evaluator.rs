use rustylator::Tokens;
use rustylator::shunting_yard;

#[test]
fn single_number_passes_through() {
    let tokens = vec![Tokens::Number(7)];
    let out = shunting_yard(&tokens);
    assert_eq!(out, vec![Tokens::Number(7)]);
}

#[test]
fn reorders_by_precedence() {
    let tokens = vec![
        Tokens::Number(2),
        Tokens::Add,
        Tokens::Number(3),
        Tokens::Multiply,
        Tokens::Number(4),
    ];
    let out = shunting_yard(&tokens);
    assert_eq!(
        out,
        vec![
            Tokens::Number(2),
            Tokens::Number(3),
            Tokens::Number(4),
            Tokens::Multiply,
            Tokens::Add,
        ]
    );
}

#[test]
fn equal_precedence_pops_left_operator_first() {
    let tokens = vec![
        Tokens::Number(8),
        Tokens::Subtract,
        Tokens::Number(3),
        Tokens::Subtract,
        Tokens::Number(2),
    ];
    let out = shunting_yard(&tokens);
    assert_eq!(
        out,
        vec![
            Tokens::Number(8),
            Tokens::Number(3),
            Tokens::Subtract,
            Tokens::Number(2),
            Tokens::Subtract,
        ]
    );
}

#[test]
fn incoming_low_precedence_flushes_stacked_high_precedence() {
    let tokens = vec![
        Tokens::Number(2),
        Tokens::Multiply,
        Tokens::Number(3),
        Tokens::Add,
        Tokens::Number(4),
    ];
    let out = shunting_yard(&tokens);
    assert_eq!(
        out,
        vec![
            Tokens::Number(2),
            Tokens::Number(3),
            Tokens::Multiply,
            Tokens::Number(4),
            Tokens::Add,
        ]
    );
}
