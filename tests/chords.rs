use chords::{Browser, Chord, ChordError, Chords, KeyInput, Listing};

fn chord(s: &str) -> Chord {
    s.parse().unwrap()
}

fn entries(d: &Chords) -> Vec<(String, String)> {
    d.iter()
        .into_iter()
        .map(|(c, w)| (c.as_str().to_string(), w))
        .collect()
}

#[test]
fn parse_chords() {
    let chord1: Chord = "  B + a+c ".parse().unwrap();
    let chord2: Chord = "c+B+a".parse().unwrap();
    let invalid: Result<Chord, _> = "aa+b".parse();

    assert_eq!(chord1, chord2);
    assert_eq!(chord1.as_str(), "A+B+C");
    assert!(invalid.is_err());
}

#[test]
fn insert_into_chords() {
    let chord: Chord = "B+D".parse().unwrap();
    assert_eq!(chord.as_str(), "B+D");

    let mut insert_invalid = chord.clone();
    assert!(!insert_invalid.insert('/'));
    assert_eq!(insert_invalid, chord);

    let mut insert_contained = chord.clone();
    assert!(!insert_contained.insert('b'));
    assert_eq!(insert_invalid, chord);

    let mut insert_front = chord.clone();
    assert!(insert_front.insert('a'));
    assert_eq!(insert_front.as_str(), "A+B+D");

    let mut insert_center = chord.clone();
    assert!(insert_center.insert('c'));
    assert_eq!(insert_center.as_str(), "B+C+D");

    let mut insert_end = chord.clone();
    assert!(insert_end.insert('e'));
    assert_eq!(insert_end.as_str(), "B+D+E");

    let mut insert_empty = Chord::default();
    assert_eq!(insert_empty.as_str(), "");
    assert!(insert_empty.insert('d'));
    assert_eq!(insert_empty.as_str(), "D");
}

#[test]
fn parse_normalizes_order_case_and_space() {
    for s in ["B+A", "A+B", " a + b "] {
        assert_eq!(Chord::parse(s).unwrap().as_str(), "A+B");
    }
}

#[test]
fn parse_rejects_long_token() {
    assert_eq!(Chord::parse("AA+B"), Err(ChordError::InvalidKeyToken));
}

#[test]
fn parse_rejects_empty_pieces() {
    assert_eq!(Chord::parse(""), Err(ChordError::InvalidKeyToken));
    assert_eq!(Chord::parse("   "), Err(ChordError::InvalidKeyToken));
    assert_eq!(Chord::parse("A++B"), Err(ChordError::InvalidKeyToken));
    assert_eq!(Chord::parse("A+"), Err(ChordError::InvalidKeyToken));
}

#[test]
fn parse_merges_repeated_keys() {
    assert_eq!(Chord::parse("b+B+b").unwrap().as_str(), "B");
}

#[test]
fn parse_keeps_non_letter_keys() {
    assert_eq!(Chord::parse("z+1").unwrap().as_str(), "1+Z");
}

#[test]
fn parse_trims_tabs_and_line_breaks() {
    assert_eq!(Chord::parse("\tq\r+\n w").unwrap().as_str(), "Q+W");
}

#[test]
fn insert_front_middle_end() {
    let mut c = chord("B+D");
    assert!(c.insert('A'));
    assert_eq!(c.as_str(), "A+B+D");
    let mut c = chord("B+D");
    assert!(c.insert('C'));
    assert_eq!(c.as_str(), "B+C+D");
    let mut c = chord("B+D");
    assert!(c.insert('E'));
    assert_eq!(c.as_str(), "B+D+E");
}

#[test]
fn insert_rejects_duplicate_and_non_letter() {
    let mut c = chord("B+D");
    assert!(!c.insert('b'));
    assert_eq!(c.as_str(), "B+D");
    assert!(!c.insert('/'));
    assert!(!c.insert('1'));
    assert!(!c.insert(' '));
    assert_eq!(c.as_str(), "B+D");
}

#[test]
fn insert_matches_parse_of_whole_set() {
    let mut c = Chord::new();
    for k in ['q', 'W', 'e', 'a', 'z'] {
        assert!(c.insert(k));
    }
    assert_eq!(c, chord("a+e+q+w+z"));
    assert_eq!(c.as_str(), "A+E+Q+W+Z");
}

#[test]
fn clear_and_is_empty() {
    let mut c = chord("X+Y");
    assert!(!c.is_empty());
    c.clear();
    assert!(c.is_empty());
    assert_eq!(c.as_str(), "");
}

#[test]
fn chords_order_by_spelling() {
    assert!(chord("A+B") < chord("B"));
    assert!(chord("A") < chord("A+B"));
}

#[test]
fn dictionary_insert_signals_rebind() {
    let mut d = Chords::new();
    assert_eq!(d.insert(chord("T+H"), "the".to_string()), None);
    assert_eq!(
        d.insert(chord("h+t"), "then".to_string()),
        Some("the".to_string())
    );
    assert_eq!(entries(&d), vec![("H+T".to_string(), "then".to_string())]);
}

#[test]
fn dictionary_remove() {
    let mut d = Chords::new();
    d.insert(chord("A"), "a".to_string());
    d.insert(chord("B"), "be".to_string());
    assert_eq!(d.remove(&chord("C")), None);
    assert_eq!(d.remove(&chord("A")), Some("a".to_string()));
    assert_eq!(d.remove(&chord("A")), None);
    assert_eq!(entries(&d), vec![("B".to_string(), "be".to_string())]);
}

#[test]
fn dictionary_iterates_ascending() {
    let mut d = Chords::new();
    for (c, w) in [("B", "be"), ("A+B", "about"), ("C", "see"), ("A", "a")] {
        d.insert(chord(c), w.to_string());
    }
    let keys: Vec<String> = entries(&d).into_iter().map(|(c, _)| c).collect();
    assert_eq!(keys, vec!["A", "A+B", "B", "C"]);
    let again: Vec<String> = entries(&d).into_iter().map(|(c, _)| c).collect();
    assert_eq!(keys, again);
}

#[test]
fn dictionary_text_form() {
    let mut d = Chords::new();
    d.insert(chord("b"), "be".to_string());
    d.insert(chord("b+a"), "about".to_string());
    assert_eq!(d.to_text(), "A+B: about\nB: be\n");
}

#[test]
fn dictionary_load_is_best_effort() {
    let d = Chords::from_text("A+B: about\nno separator here\n");
    assert_eq!(
        entries(&d),
        vec![("A+B".to_string(), "about".to_string())]
    );
}

#[test]
fn dictionary_load_drops_bad_chords_and_trims_words() {
    let d = Chords::from_text("AB: x\n c + a :   cat  \n: nothing\n\n");
    assert_eq!(entries(&d), vec![("A+C".to_string(), "cat".to_string())]);
}

#[test]
fn dictionary_load_later_line_wins() {
    let d = Chords::from_text("A: first\nB: bee\na: second");
    assert_eq!(
        entries(&d),
        vec![
            ("A".to_string(), "second".to_string()),
            ("B".to_string(), "bee".to_string())
        ]
    );
}

#[test]
fn dictionary_load_keeps_colons_in_word() {
    let d = Chords::from_text("T: time: now\n");
    assert_eq!(entries(&d), vec![("T".to_string(), "time: now".to_string())]);
}

#[test]
fn dictionary_round_trip() {
    let mut d = Chords::new();
    for (c, w) in [("S+T", "set"), ("A", "a"), ("q+u+i", "quick fox"), ("Z", "zed")] {
        d.insert(chord(c), w.to_string());
    }
    let back = Chords::from_text(&d.to_text());
    assert_eq!(entries(&back), entries(&d));
    assert_eq!(back.to_text(), d.to_text());
}

fn listing(rank: &str, word: &str, chord: &str) -> Listing {
    Listing {
        rank: rank.to_string(),
        word: word.to_string(),
        chord: chord.to_string(),
    }
}

fn row_words(b: &Browser) -> Vec<String> {
    b.rows().iter().map(|l| l.word.clone()).collect()
}

#[test]
fn browser_filters_by_search() {
    let ls = vec![
        listing("1", "the", "T+H"),
        listing("2", "then", "E+H+T"),
        listing("3", "and", "A+N"),
    ];
    let mut b = Browser::new();
    b.update_rows(&ls);
    assert_eq!(row_words(&b), vec!["the", "then", "and"]);
    assert!(!b.handle_key(KeyInput::Char('h'), &ls));
    assert_eq!(b.search(), "h");
    assert_eq!(row_words(&b), vec!["the", "then"]);
    assert!(!b.handle_key(KeyInput::Char('e'), &ls));
    assert_eq!(row_words(&b), vec!["the", "then"]);
    assert!(!b.handle_key(KeyInput::Char('n'), &ls));
    assert_eq!(row_words(&b), vec!["then"]);
    assert_eq!(b.rows()[0].chord, "E+H+T");
    assert_eq!(b.rows()[0].rank, "2");
    assert!(!b.handle_key(KeyInput::Backspace, &ls));
    assert_eq!(b.search(), "he");
    assert_eq!(row_words(&b), vec!["the", "then"]);
    assert!(!b.handle_key(KeyInput::Control('h'), &ls));
    assert_eq!(b.search(), "");
    assert_eq!(row_words(&b), vec!["the", "then", "and"]);
    assert!(!b.handle_key(KeyInput::Backspace, &ls));
    assert_eq!(b.search(), "");
}

#[test]
fn browser_moves_selection() {
    let ls = vec![listing("", "a", "A")];
    let mut b = Browser::new();
    assert_eq!(b.selected(), None);
    b.handle_key(KeyInput::Up, &ls);
    assert_eq!(b.selected(), None);
    b.handle_key(KeyInput::Down, &ls);
    assert_eq!(b.selected(), Some(0));
    b.handle_key(KeyInput::Down, &ls);
    assert_eq!(b.selected(), Some(1));
    b.handle_key(KeyInput::Up, &ls);
    b.handle_key(KeyInput::Up, &ls);
    assert_eq!(b.selected(), None);
    b.select(Some(4));
    assert_eq!(b.selected(), Some(4));
}

#[test]
fn browser_quits_on_control_c() {
    let ls = Vec::new();
    let mut b = Browser::new();
    assert!(!b.handle_key(KeyInput::Char('c'), &ls));
    assert!(!b.handle_key(KeyInput::Other, &ls));
    assert!(b.handle_key(KeyInput::Control('c'), &ls));
}
