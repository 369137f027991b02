use optizoignons::entry::{is_separator_char, is_space_char, split_names};
use optizoignons::html_id::{safe_html_id, text_hash};
use optizoignons::numerals::push_numeral;

/// The names and the rest that the handler of the text field had worked out.
fn by_std(input: &str) -> (Vec<String>, String) {
    let mut persons: Vec<String> = Vec::new();
    let mut remaining = input.to_owned();
    let mut count: usize = 0;
    while let Some((h, r)) = remaining.split_once([',', ';', '\n']) {
        persons.push(h.trim().to_owned());
        remaining = r.to_owned();
        count += 1;
    }
    if count >= 2 {
        let remaining = remaining.trim();
        if !remaining.is_empty() {
            persons.push(remaining.to_owned());
        }
        (persons, String::new())
    } else {
        (persons, remaining)
    }
}

#[test]
fn typed_names_are_split_at_separators() {
    assert_eq!(split_names(""), (vec![], "".to_owned()));
    assert_eq!(split_names("Ann"), (vec![], "Ann".to_owned()));
    assert_eq!(split_names(" Ann "), (vec![], " Ann ".to_owned()));
    assert_eq!(
        split_names(" Ann , Bob"),
        (vec!["Ann".to_owned()], " Bob".to_owned())
    );
    assert_eq!(
        split_names("Ann,Bob;Cy"),
        (
            vec!["Ann".to_owned(), "Bob".to_owned(), "Cy".to_owned()],
            "".to_owned()
        )
    );
    assert_eq!(
        split_names(" Ann Lee \n\tBob\u{a0};  "),
        (vec!["Ann Lee".to_owned(), "Bob".to_owned()], "".to_owned())
    );
    assert_eq!(
        split_names(",,"),
        (vec!["".to_owned(), "".to_owned()], "".to_owned())
    );
    assert_eq!(split_names(" ;"), (vec!["".to_owned()], "".to_owned()));
}

#[test]
fn typed_names_are_split_as_the_standard_library_splits_them() {
    let parts = ["", " ", "Émile", "a b", "\t", ",", ";", "\n", "\u{3000}x", "y\u{2009}", "𝄞"];
    for a in parts {
        for b in parts {
            for c in parts {
                for d in parts {
                    let input = format!("{a}{b}{c}{d}");
                    assert_eq!(split_names(&input), by_std(&input), "{input:?}");
                }
            }
        }
    }
}

#[test]
fn white_space_is_what_the_standard_library_calls_so() {
    for code in 0..=0x10ffffu32 {
        if let Some(c) = char::from_u32(code) {
            assert_eq!(is_space_char(c), c.is_whitespace(), "{code:x}");
            assert_eq!(is_separator_char(c), [',', ';', '\n'].contains(&c));
        }
    }
}

#[test]
fn an_identifier_is_id_and_the_hash_in_hexadecimal() {
    assert_eq!(text_hash(""), 5381);
    assert_eq!(safe_html_id(""), "id1505");
    // 5381 * 33 = 177573, and 177573 ^ 97 = 177604.
    assert_eq!(text_hash("a"), 177604);
    assert_eq!(safe_html_id("a"), "id2b5c4");
    for input in ["Add tables", "Add a new person", "Add a relation between two persons", "é𝄞"] {
        let mut hash: u64 = 5381;
        for b in input.bytes() {
            hash = (hash.wrapping_shl(5)).wrapping_add(hash) ^ b as u64;
        }
        assert_eq!(text_hash(input), hash);
        assert_eq!(safe_html_id(input), format!("id{:x}", hash));
    }
}

#[test]
fn numbers_are_written_in_hexadecimal() {
    for n in [0u64, 9, 10, 15, 16, 255, 256, 0xdead_beef, u64::MAX] {
        let mut out = String::new();
        push_numeral(&mut out, n, 16);
        assert_eq!(out, format!("{:x}", n));
        let mut out = String::new();
        push_numeral(&mut out, n, 2);
        assert_eq!(out, format!("{:b}", n));
    }
}
