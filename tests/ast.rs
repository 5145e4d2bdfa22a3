use noirc_evaluator::ast::{BinaryOpKind, BlockExpression, ContractFunctionType, Statement, Token, UnaryOp};

#[test]
fn comparators() {
    assert!(BinaryOpKind::Equal.is_comparator());
    assert!(BinaryOpKind::GreaterEqual.is_comparator());
    assert!(!BinaryOpKind::Add.is_comparator());
    assert!(!BinaryOpKind::ShiftLeft.is_comparator());
}

#[test]
fn field_operators() {
    assert!(BinaryOpKind::Equal.is_valid_for_field_type());
    assert!(BinaryOpKind::NotEqual.is_valid_for_field_type());
    assert!(!BinaryOpKind::Less.is_valid_for_field_type());
}

#[test]
fn operator_text_and_tokens() {
    assert_eq!(BinaryOpKind::Add.as_string(), "+");
    assert_eq!(BinaryOpKind::LessEqual.as_string(), "<=");
    assert_eq!(BinaryOpKind::ShiftRight.as_string(), ">>");
    assert_eq!(BinaryOpKind::Modulo.as_string(), "%");
    assert_eq!(BinaryOpKind::Xor.as_token(), Token::Caret);
    assert_eq!(BinaryOpKind::Or.as_token(), Token::Pipe);
    assert_eq!(BinaryOpKind::ShiftLeft.as_token(), Token::ShiftLeft);
    assert!(BinaryOpKind::ShiftLeft.is_bit_shift());
    assert!(!BinaryOpKind::Divide.is_bit_shift());
}

#[test]
fn unary_operators_from_tokens() {
    assert_eq!(UnaryOp::from(&Token::Minus), Some(UnaryOp::Minus));
    assert_eq!(UnaryOp::from(&Token::Bang), Some(UnaryOp::Not));
    assert_eq!(UnaryOp::from(&Token::Plus), None);
    assert_ne!(UnaryOp::Dereference { implicitly_added: true }, UnaryOp::Dereference { implicitly_added: false });
    assert_ne!(ContractFunctionType::Secret, ContractFunctionType::Open);
}

#[test]
fn block_statements() {
    let mut block = BlockExpression(vec![Statement::Let, Statement::Expression]);
    assert_eq!(block.len(), 2);
    assert!(!block.is_empty());
    assert_eq!(block.pop(), Some(Statement::Expression));
    assert_eq!(block.pop(), Some(Statement::Let));
    assert_eq!(block.pop(), None);
    assert!(block.is_empty());
}

#[test]
fn unary_operator_text() {
    assert_eq!(UnaryOp::Minus.as_string(), "-");
    assert_eq!(UnaryOp::Not.as_string(), "!");
    assert_eq!(UnaryOp::MutableReference.as_string(), "&mut");
    assert_eq!(UnaryOp::Dereference { implicitly_added: false }.as_string(), "*");
}
