use extract_words::Entries;
use extract_words::Entry;
use extract_words::extract_words;

fn extract_vec(text: &str) -> Vec<&str> {
    let mut words = extract_words(text);
    let mut out = Vec::new();
    while let Some(w) = words.next() {
        out.push(w);
    }
    out
}

fn entry_vec(text: &str) -> Vec<Entry<'_>> {
    let mut entries = Entries::new(text);
    let mut out = Vec::new();
    while let Some(e) = entries.next() {
        out.push(e);
    }
    out
}

fn is_word(e: &Entry<'_>) -> bool {
    matches!(e, Entry::Word(_))
}

#[test]
fn test_empty_string() {
    assert!(extract_vec("").is_empty());
}

#[test]
fn test_punctuation_only() {
    assert!(extract_vec(".,!?-").is_empty());
}

#[test]
fn test_mixed_input() {
    assert_eq!(
        extract_vec("Hola,mundo! ¿Cómo estás?"),
        ["Hola", "mundo", "Cómo", "estás"]
    );
}

#[test]
fn test_multiple_delimiters() {
    assert_eq!(extract_vec("Hola, mundo!¿ .. !¿á"), ["Hola", "mundo", "á"]);
}

#[test]
fn test_simple_words() {
    assert_eq!(extract_vec("Hola, mundo!"), ["Hola", "mundo"]);
}

#[test]
fn test_non_ascii_letters() {
    assert_eq!(extract_vec("¿Cómo estás?"), ["Cómo", "estás"]);
}

#[test]
fn test_entry_sequence() {
    let mut entries = Entries::new("Bien :)");
    assert_eq!(entries.next().unwrap(), Entry::Word("Bien"));
    assert_eq!(entries.next().unwrap(), Entry::Other(" :)"));
    assert!(entries.next().is_none());
}

#[test]
fn test_entries_tile_text() {
    let text = "Hola, mundo!¿ .. !¿á";
    let mut rebuilt = String::new();
    for e in entry_vec(text) {
        assert!(!e.as_ref().is_empty());
        rebuilt.push_str(e.as_ref());
    }
    assert_eq!(rebuilt, text);
}

#[test]
fn test_adjacent_tags_differ() {
    let entries = entry_vec("a b,,c99 ·ñ!");
    for pair in entries.windows(2) {
        assert!(is_word(&pair[0]) != is_word(&pair[1]));
    }
}

#[test]
fn test_words_are_filtered_entries() {
    let text = "Hola,mundo! ¿Cómo estás?";
    let filtered: Vec<&str> = entry_vec(text)
        .iter()
        .filter(|e| is_word(e))
        .map(|e| e.as_ref())
        .collect();
    assert_eq!(extract_vec(text), filtered);
}

#[test]
fn test_empty_text_no_entries() {
    let mut entries = Entries::new("");
    assert!(entries.next().is_none());
    assert!(entries.next().is_none());
}

#[test]
fn test_punctuation_single_entry() {
    let entries = entry_vec(".,!?-");
    assert_eq!(entries.len(), 1);
    assert_eq!(entries[0], Entry::Other(".,!?-"));
}

#[test]
fn test_single_class_word_entry() {
    let entries = entry_vec("abc123");
    assert_eq!(entries.len(), 1);
    assert_eq!(entries[0], Entry::Word("abc123"));
}

#[test]
fn test_entry_as_ref() {
    let word = Entry::Word("añ1");
    let other = Entry::Other(" ,.");
    assert_eq!(word.as_ref(), "añ1");
    assert_eq!(other.as_ref(), " ,.");
}

#[test]
fn test_independent_producers_agree() {
    let text = "Hola, mundo!¿ .. !¿á";
    assert_eq!(entry_vec(text), entry_vec(text));
    assert_eq!(extract_vec(text), extract_vec(text));
}

#[test]
fn test_exhaustion_is_permanent() {
    let mut words = extract_words("a.");
    assert_eq!(words.next().unwrap(), "a");
    assert!(words.next().is_none());
    assert!(words.next().is_none());
    assert!(words.next().is_none());
}
