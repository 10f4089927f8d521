use live_plotter::text::{characters, is_missing, is_white_space, split_fields};

#[test]
fn fields_are_parted_by_commas_and_spaces() {
    assert_eq!(split_fields("1,2 3"), Some(vec!["1", "2", "3"]));
    assert_eq!(split_fields("  1, ,2,,3 \t\r\n"), Some(vec!["1", "2", "3"]));
    assert_eq!(split_fields("1\t2"), Some(vec!["1\t2"]));
    assert_eq!(split_fields(",é ,ünï"), Some(vec!["é", "ünï"]));
}

#[test]
fn blank_lines_have_no_fields() {
    assert_eq!(split_fields(""), None);
    assert_eq!(split_fields(" \t\u{a0}\u{3000}\n"), None);
    assert_eq!(split_fields(",,"), Some(vec![]));
}

#[test]
fn fields_agree_with_a_plain_split() {
    for line in ["a b", " x,y ", ",,1 2,", "1", "\u{85} 4 , 5", "no", "  ,  "] {
        let plain: Vec<&str> = line
            .trim()
            .split(|c| c == ',' || c == ' ')
            .filter(|s| !s.is_empty())
            .collect();
        assert_eq!(split_fields(line).unwrap_or_default(), plain);
    }
}

#[test]
fn white_space_is_that_of_unicode() {
    for u in 0..=0x10ffffu32 {
        if let Some(c) = char::from_u32(u) {
            assert_eq!(is_white_space(c), c.is_whitespace(), "{:x}", u);
        }
    }
}

#[test]
fn missing_values_are_named_in_any_case() {
    for s in ["none", "None", "NONE", "null", "NuLL"] {
        assert!(is_missing(s), "{}", s);
    }
    for s in ["", "nan", "non", "nonee", "nule", "nome", "NULK", "ⁿone"] {
        assert!(!is_missing(s), "{}", s);
    }
}

#[test]
fn characters_of_a_text() {
    assert_eq!(characters("aé→"), vec!['a', 'é', '→']);
    assert_eq!(characters(""), vec![]);
}
