use argos::text::{chars_of, comes_before, contains, joined_text, push_number, push_signed, same, trim};

#[test]
fn numbers_are_written_in_decimal() {
    let mut text = String::from("n=");
    push_number(&mut text, 0);
    text.push(' ');
    push_number(&mut text, 1200);
    text.push(' ');
    push_number(&mut text, u64::MAX);
    assert_eq!(text, "n=0 1200 18446744073709551615");
}

#[test]
fn negative_numbers_have_a_sign() {
    let mut text = String::new();
    push_signed(&mut text, -20);
    text.push(' ');
    push_signed(&mut text, i64::MIN);
    text.push(' ');
    push_signed(&mut text, 7);
    assert_eq!(text, "-20 -9223372036854775808 7");
}

#[test]
fn order_is_that_of_the_characters() {
    assert!(comes_before("alice", "bob"));
    assert!(comes_before("al", "alice"));
    assert!(comes_before("Zed", "alice"));
    assert!(!comes_before("bob", "alice"));
    assert!(!comes_before("bob", "bob"));
    assert!(comes_before("", "a"));
    assert!(comes_before("z", "é"));
}

#[test]
fn order_is_total_and_transitive_on_names() {
    let names = ["", "a", "ab", "b", "Ä", "z"];
    for a in names {
        for b in names {
            assert_eq!(comes_before(a, b), a < b);
            for c in names {
                if comes_before(a, b) && comes_before(b, c) {
                    assert!(comes_before(a, c));
                }
            }
        }
    }
}

#[test]
fn parts_are_found() {
    assert!(contains("radmin vpn.exe", "radmin vpn"));
    assert!(contains("xx radmin", "radmin"));
    assert!(contains("anything", ""));
    assert!(!contains("radmi", "radmin"));
    assert!(!contains("rad min", "radmin"));
}

#[test]
fn white_space_is_trimmed_at_both_ends() {
    assert_eq!(trim("  a b\t\n"), "a b");
    assert_eq!(trim(" \u{2003}\u{a0} "), "");
    assert_eq!(trim(""), "");
    assert_eq!(trim("x"), "x");
    for text in ["  a ", "\u{3000}é\u{85}", "\u{200b}", " \r\n"] {
        assert_eq!(trim(text), text.trim());
    }
}

#[test]
fn texts_are_compared_and_joined() {
    assert!(same("discord.exe", "discord.exe"));
    assert!(!same("discord.exe", "discord.ex"));
    assert!(!same("discord.exe", "Discord.exe"));
    assert_eq!(joined_text("a: ", "b"), "a: b");
    assert_eq!(chars_of("aé"), vec!['a', 'é']);
}
