use calculator::calculate;

#[test]
fn corpus_evaluates_to_expected_values() {
    let expressions = [
        "(2 * 2) + (5)",
        "3 + 4 - 2",
        "10 / 2 * 3",
        "(7 - 3) * 2",
        "6 / (2 + 1)",
        "(4 * 2) + (6 / 3)",
        "5 * (3 + 2) - 8",
        "(9 / 3) + (2 * 2)",
        "(5 + 2) * (8 - 3)",
        "12 / 4 + (6 - 2)",
        "4 - 2 + 7 * 3",
        "8 / 2 - 1 + 5",
        "(3 * 2) / (1 + 1)",
        "(5 + 3) * (2 - 1)",
        "9 * 2 / (6 - 3)",
        "10 / (2 * 5) + 1",
        "7 * (4 - 2) + 6 / 3",
        "(6 + 2) * (9 - 3) / 2",
        "(4 * 3) + 2 - 5 / 1",
        "8 / 2 * (4 + 1)",
    ];
    let solutions: [isize; 20] = [
        9, 5, 15, 8, 2, 10, 17, 7, 35, 7, 23, 8, 3, 8, 6, 2, 16, 24, 9, 20,
    ];
    assert_eq!(expressions.len(), solutions.len());
    for (expression, expected) in expressions.iter().zip(solutions.iter()) {
        assert_eq!(calculate(&expression.to_string()), Ok(*expected), "{}", expression);
    }
}
