use wordle::slot::Slot;
use wordle::wordle::Signal;
use wordle::wordle::Wordle;
use wordle::wordle::WordleParseError;

fn filter<S: Into<String>>(word: S, slots: &[Slot; 5]) -> bool {
    word.into()
        .chars()
        .enumerate()
        .all(|(i, c)| slots[i].contains(&c))
}

fn dict(words: &[&str]) -> Vec<String> {
    words.iter().map(|w| String::from(*w)).collect()
}

#[test]
fn parse() {
    assert_eq!(
        Wordle::parse_line("c!r!an!e").unwrap(),
        vec![
            Signal::Present('c'),
            Signal::Absent('r'),
            Signal::Absent('a'),
            Signal::Present('n'),
            Signal::Absent('e')
        ]
    );
    assert_eq!(
        Wordle::parse_line("!p!lo!y!s").unwrap(),
        vec![
            Signal::Absent('p'),
            Signal::Absent('l'),
            Signal::Present('o'),
            Signal::Absent('y'),
            Signal::Absent('s')
        ]
    );
}

#[test]
fn filter_test() {
    let slots: [Slot; 5] = [
        Slot::from_range('a', 'd'),
        Slot::from_range('e', 'h'),
        Slot::from_range('i', 'm'),
        Slot::from_range('n', 't'),
        Slot::from_range('u', 'z'),
    ];

    assert!(filter("aeinu", &slots));
    assert!(!filter("zeinu", &slots));
}

#[test]
fn tonic() {
    let mut wordle = Wordle::new(dict(&["crane", "print", "cones", "scion", "oncot"]));

    assert!(wordle.update("c!r!an!e").is_ok());
    assert!(wordle.update("!p!lo!y!s").is_ok());

    // Only the word holding every required letter and no forbidden one survives.
    assert_eq!(wordle.words(), vec![String::from("oncot")]);

    for word in wordle.words() {
        // Check that the c, o, and n that are required are present in all words
        // Check that none of the forbidden letters are present in any word
        let results = [
            word.contains('c'),
            word.contains('o'),
            word.contains('n'),
            !word.contains('r'),
            !word.contains('a'),
            !word.contains('e'),
            !word.contains('p'),
            !word.contains('l'),
            !word.contains('y'),
            !word.contains('s'),
        ];

        if results.iter().any(|t| !t) {
            println!("Failed at {}", word);
            assert!(false);
        }
    }
}

#[test]
fn parse_uppercase_is_exact_lowercased() {
    assert_eq!(
        Wordle::parse_line("Crane").unwrap(),
        vec![
            Signal::Exact('c'),
            Signal::Present('r'),
            Signal::Present('a'),
            Signal::Present('n'),
            Signal::Present('e')
        ]
    );
}

#[test]
fn parse_question_is_blank_absent() {
    assert_eq!(
        Wordle::parse_line("ab?de").unwrap(),
        vec![
            Signal::Present('a'),
            Signal::Present('b'),
            Signal::Absent(' '),
            Signal::Present('d'),
            Signal::Present('e')
        ]
    );
}

#[test]
fn parse_modifier_takes_any_character() {
    assert_eq!(
        Wordle::parse_line("!9bcde").unwrap(),
        vec![
            Signal::Absent('9'),
            Signal::Present('b'),
            Signal::Present('c'),
            Signal::Present('d'),
            Signal::Present('e')
        ]
    );
}

#[test]
fn parse_modifier_is_case_insensitive() {
    assert_eq!(
        Wordle::parse_line("!Abcde").unwrap(),
        Wordle::parse_line("!abcde").unwrap()
    );
    assert_eq!(
        Wordle::parse_line("!Abcde").unwrap()[0],
        Signal::Absent('a')
    );
}

#[test]
fn parse_invalid_token() {
    assert_eq!(
        Wordle::parse_line("ab3de"),
        Err(WordleParseError::InvalidToken('3'))
    );
    assert_eq!(
        Wordle::parse_line("#bcde"),
        Err(WordleParseError::InvalidToken('#'))
    );
}

#[test]
fn parse_invalid_length() {
    assert_eq!(
        Wordle::parse_line("abc"),
        Err(WordleParseError::InvalidLength(3))
    );
    assert_eq!(
        Wordle::parse_line("abcdef"),
        Err(WordleParseError::InvalidLength(6))
    );
    assert_eq!(
        Wordle::parse_line(""),
        Err(WordleParseError::InvalidLength(0))
    );
}

#[test]
fn parse_trailing_modifier_yields_no_signal() {
    assert_eq!(
        Wordle::parse_line("abcd!"),
        Err(WordleParseError::InvalidLength(4))
    );
    assert_eq!(
        Wordle::parse_line("!!!!!"),
        Err(WordleParseError::InvalidLength(0))
    );
}

#[test]
fn new_keeps_only_words_of_length_five() {
    let wordle = Wordle::new(dict(&["abc", "crane", "toolong", ""]));
    assert_eq!(wordle.len(), 1);
    assert_eq!(wordle.words(), vec![String::from("crane")]);
}

#[test]
fn update_failure_changes_nothing() {
    let mut wordle = Wordle::new(dict(&["crane", "print"]));
    let before = wordle.words();

    assert_eq!(wordle.update("xx"), Err(WordleParseError::InvalidLength(2)));
    assert_eq!(wordle.update("ab#de"), Err(WordleParseError::InvalidToken('#')));

    assert_eq!(wordle.len(), 2);
    assert_eq!(wordle.words(), before);
}

#[test]
fn update_exact_restricts_slot() {
    let mut wordle = Wordle::new(dict(&["crane", "brane"]));
    assert!(wordle.update("C?!x!y!z").is_ok());
    assert_eq!(wordle.words(), vec![String::from("crane")]);
}

#[test]
fn update_counts_never_grow() {
    let mut wordle = Wordle::new(dict(&["crane", "print", "cones", "scion", "amber"]));
    let n0 = wordle.len();
    assert!(wordle.update("c!r!an!e").is_ok());
    let n1 = wordle.len();
    assert!(wordle.update("!p!lo!y!s").is_ok());
    let n2 = wordle.len();
    assert!(n1 <= n0);
    assert!(n2 <= n1);
}

#[test]
fn update_required_needs_one_occurrence() {
    // A present letter is required only somewhere: one occurrence is enough,
    // and the letter's own slot no longer admits it.
    let mut wordle = Wordle::new(dict(&["melee", "edged"]));
    assert!(wordle.update("e!x!y!z?").is_ok());
    assert_eq!(wordle.words(), vec![String::from("melee")]);
}

#[test]
fn words_is_a_snapshot() {
    let mut wordle = Wordle::new(dict(&["crane", "print"]));
    let snapshot = wordle.words();
    assert!(wordle.update("!c!r!a!n!e").is_ok());
    assert_eq!(snapshot, vec![String::from("crane"), String::from("print")]);
    assert!(wordle.len() < 2);
}

#[test]
fn slot_remove_is_idempotent() {
    let mut slot = Slot::new();
    slot.remove(&'q');
    assert!(!slot.contains(&'q'));
    let reference: Vec<bool> = (b'a'..=b'z').map(|b| slot.contains(&(b as char))).collect();
    slot.remove(&'q');
    let again: Vec<bool> = (b'a'..=b'z').map(|b| slot.contains(&(b as char))).collect();
    assert_eq!(reference, again);
}

#[test]
fn slot_restrict_is_irreversible() {
    let mut slot = Slot::new();
    slot.restrict('k');
    for b in b'a'..=b'z' {
        let c = b as char;
        assert_eq!(slot.contains(&c), c == 'k');
    }
    slot.remove(&'a');
    slot.remove(&'z');
    for b in b'a'..=b'z' {
        let c = b as char;
        assert_eq!(slot.contains(&c), c == 'k');
    }
}
