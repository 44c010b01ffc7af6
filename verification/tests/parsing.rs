use brainfuckr::cmds::Commands;
use brainfuckr::cmds::ParseError;
use brainfuckr::cmds::get_instruction_chars;
use brainfuckr::cmds::get_instructions;
use brainfuckr::cmds::set_jumps;

#[test]
fn test_get_instruction_chars_from_file() {
    let inst = vec![
        '[', '<', '>', '.', ',', ']', '+', '-', '+', '+', '+', '<', '>', '[', ']',
    ];
    assert_eq!(get_instruction_chars("[abc<>.,]+-%_++#$+<>[fdasf]"), inst);
}

#[test]
fn test_get_instruction_chars_empty() {
    assert_eq!(get_instruction_chars(""), Vec::<char>::new());
    assert_eq!(get_instruction_chars("no instructions here."), vec!['.']);
    assert_eq!(get_instruction_chars("abc def"), Vec::<char>::new());
}

#[test]
fn test_get_instructions_error_unbalanced() {
    let unbalanced = vec!['[', ']', '['];
    assert!(get_instructions(&unbalanced).is_err());
    let unbalanced = vec!['[', ']', ']'];
    assert!(get_instructions(&unbalanced).is_err());
}

#[test]
fn test_get_instructions() {
    let balanced = vec!['[', '[', ']', '>', '-', '.', ',', '<', '+', ']'];
    let cmds_calculated = get_instructions(&balanced);
    let cmds = vec![
        Commands::LeftBracket(9),
        Commands::LeftBracket(2),
        Commands::RightBracket(1),
        Commands::MoveRight,
        Commands::Decrement,
        Commands::Print,
        Commands::Read,
        Commands::MoveLeft,
        Commands::Increment,
        Commands::RightBracket(0),
    ];
    assert_eq!(cmds, cmds_calculated.unwrap());
}

#[test]
fn test_get_instructions_empty_is_balanced() {
    let empty: Vec<char> = Vec::new();
    assert_eq!(get_instructions(&empty).unwrap(), Vec::<Commands>::new());
}

#[test]
fn test_get_instructions_deeply_nested() {
    let nested: Vec<char> = "[[[[]]]]".chars().collect();
    let prog = get_instructions(&nested).unwrap();
    let expected = vec![
        Commands::LeftBracket(7),
        Commands::LeftBracket(6),
        Commands::LeftBracket(5),
        Commands::LeftBracket(4),
        Commands::RightBracket(3),
        Commands::RightBracket(2),
        Commands::RightBracket(1),
        Commands::RightBracket(0),
    ];
    assert_eq!(prog, expected);
}

#[test]
fn test_get_instructions_single_brackets_fail() {
    let lone_close = vec![']'];
    assert_eq!(
        get_instructions(&lone_close).unwrap_err(),
        ParseError::UnbalancedBrackets
    );
    let lone_open = vec!['['];
    assert_eq!(
        get_instructions(&lone_open).unwrap_err(),
        ParseError::UnbalancedBrackets
    );
}

#[test]
fn test_parse_is_idempotent() {
    let chars = get_instruction_chars("+[>,.<-]+[]");
    let first = get_instructions(&chars);
    let second = get_instructions(&chars);
    assert_eq!(first, second);
    let chars = get_instruction_chars("][");
    assert_eq!(get_instructions(&chars), get_instructions(&chars));
}

#[test]
fn test_discarded_chars_have_no_effect() {
    let raw: Vec<char> = "a[b>c]d".chars().collect();
    let filtered = get_instruction_chars("a[b>c]d");
    assert_eq!(get_instructions(&raw), get_instructions(&filtered));
    let raw: Vec<char> = "x]y".chars().collect();
    let filtered = get_instruction_chars("x]y");
    assert_eq!(get_instructions(&raw), get_instructions(&filtered));
}

#[test]
fn test_set_jumps_resolves_placeholders() {
    let provisional = vec![
        Commands::LeftBracket(0),
        Commands::Increment,
        Commands::RightBracket(0),
    ];
    let resolved = set_jumps(provisional);
    assert_eq!(
        resolved,
        vec![
            Commands::LeftBracket(2),
            Commands::Increment,
            Commands::RightBracket(0),
        ]
    );
}

#[test]
fn test_unbalanced_source_fails_before_execution() {
    let chars = get_instruction_chars("[unbalanced");
    assert_eq!(
        get_instructions(&chars).unwrap_err(),
        ParseError::UnbalancedBrackets
    );
}
