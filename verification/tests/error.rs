use maze_core::MazeError;

#[test]
fn error_texts() {
    assert_eq!(
        MazeError::InsufficientFunds { required: 70_001, available: 100 }.to_string(),
        "insufficient funds: required 70001, available 100"
    );
    assert_eq!(
        MazeError::InvalidParameters("x".to_string()).to_string(),
        "invalid parameters: x"
    );
    assert_eq!(
        MazeError::AddressGeneration("y".to_string()).to_string(),
        "address generation failed: y"
    );
    assert_eq!(MazeError::Encryption("z".to_string()).to_string(), "encryption failed: z");
    assert_eq!(
        MazeError::InsufficientFunds { required: 0, available: u64::MAX }.to_string(),
        "insufficient funds: required 0, available 18446744073709551615"
    );
}
