use chess_analyzer::analyzer::ChessAnalyzer;

#[test]
fn analyzer_counts_and_greets() {
    let mut a = ChessAnalyzer::new();
    assert_eq!(a.get_counter(), 0);
    a.increment_counter();
    a.increment_counter();
    assert_eq!(a.get_counter(), 2);
    assert_eq!(a.hello_world(), "Привет из Rust!");
}
