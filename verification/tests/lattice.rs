use hrm_optimizer::jump_flag::JumpFlag;

fn all_flags() -> Vec<JumpFlag> {
    vec![
        JumpFlag::Never,
        JumpFlag::IfZero,
        JumpFlag::IfNegative,
        JumpFlag::IfNotPositive,
        JumpFlag::IfPositive,
        JumpFlag::IfNotNegative,
        JumpFlag::IfNotZero,
        JumpFlag::Always,
    ]
}

#[test]
fn complement_laws() {
    for x in all_flags() {
        assert_eq!(x.and(x.complement()), JumpFlag::Never);
        assert_eq!(x.or(x.complement()), JumpFlag::Always);
        assert_eq!(x.complement().complement(), x);
    }
}

#[test]
fn commutativity_and_associativity() {
    for x in all_flags() {
        for y in all_flags() {
            assert_eq!(x.and(y), y.and(x));
            assert_eq!(x.or(y), y.or(x));
            for z in all_flags() {
                assert_eq!(x.and(y).and(z), x.and(y.and(z)));
                assert_eq!(x.or(y).or(z), x.or(y.or(z)));
            }
        }
    }
}

#[test]
fn concrete_tables() {
    assert_eq!(JumpFlag::IfZero.or(JumpFlag::IfNegative), JumpFlag::IfNotPositive);
    assert_eq!(JumpFlag::IfZero.complement(), JumpFlag::IfNotZero);
    assert_eq!(JumpFlag::IfNegative.and(JumpFlag::IfNotZero), JumpFlag::IfNegative);
    assert_eq!(JumpFlag::IfNotPositive.and(JumpFlag::IfNotNegative), JumpFlag::IfZero);
    assert_eq!(JumpFlag::Always.and(JumpFlag::IfPositive), JumpFlag::IfPositive);
    assert_eq!(JumpFlag::Never.or(JumpFlag::IfPositive), JumpFlag::IfPositive);
}

#[test]
fn from_u8_round_trip() {
    for b in 0u8..8 {
        assert_eq!(JumpFlag::from_u8(b).to_u8(), b);
    }
}
