use rdirstat::paths::entry_name;
use rdirstat::scanner::Scanner;
use rdirstat::text::{
    chars_less, chars_of, contains_chars, decimal_string, push_padded_left, push_padded_right,
    push_repeat,
};
use rdirstat::tree::FileEntry;
use rdirstat::ui::components::{build_size_breakdown_text, find_largest_item};

#[test]
fn decimal_strings() {
    assert_eq!(decimal_string(0), "0");
    assert_eq!(decimal_string(7), "7");
    assert_eq!(decimal_string(1234567890), "1234567890");
    assert_eq!(decimal_string(u64::MAX), "18446744073709551615");
}

#[test]
fn padding_and_repetition() {
    let mut s = String::new();
    push_padded_left(&mut s, "ab", 5);
    assert_eq!(s, "   ab");
    let mut t = String::new();
    push_padded_right(&mut t, "ab", 4);
    assert_eq!(t, "ab  ");
    let mut u = String::new();
    push_padded_left(&mut u, "toolong", 3);
    assert_eq!(u, "toolong");
    let mut v = String::new();
    push_repeat(&mut v, "█", 3);
    assert_eq!(v, "███");
    let mut w = String::new();
    push_padded_left(&mut w, "é", 3);
    assert_eq!(w, "  é");
}

#[test]
fn substring_search() {
    let hay = chars_of("Documents");
    assert!(contains_chars(&hay, &chars_of("cum")));
    assert!(contains_chars(&hay, &chars_of("")));
    assert!(!contains_chars(&hay, &chars_of("xyz")));
    assert!(!contains_chars(&chars_of("ab"), &chars_of("abc")));
}

#[test]
fn name_order_is_the_order_of_str() {
    let pairs = [("a", "b"), ("a", "ab"), ("", "a"), ("Z", "a"), ("é", "z")];
    for (a, b) in pairs {
        assert_eq!(chars_less(&chars_of(a), &chars_of(b)), a < b);
        assert_eq!(chars_less(&chars_of(b), &chars_of(a)), b < a);
    }
    assert!(!chars_less(&chars_of("same"), &chars_of("same")));
}

#[test]
fn sizes_are_shown_in_binary_units() {
    let sizes = [(0u64, "0 B"), (1023, "1023 B"), (1024, "1 KiB"), (1536, "1.50 KiB"), (3 * 1024 * 1024, "3 MiB")];
    for (size, shown) in sizes {
        let tree = Scanner::build_tree(&"/x".to_string(), vec![FileEntry::new("/x".to_string(), size, false)]);
        assert_eq!(find_largest_item(&tree.root), format!("x ({shown})"));
    }
}

#[test]
fn entry_names_are_final_components() {
    assert_eq!(entry_name("/a/b"), "b");
    assert_eq!(entry_name("/a/b.txt"), "b.txt");
    assert_eq!(entry_name("relative"), "relative");
    assert_eq!(entry_name("/"), "/");
}

#[test]
fn extensions_name_the_categories() {
    let tree = Scanner::build_tree(
        &"/r".to_string(),
        vec![
            FileEntry::new("/r".to_string(), 0, true),
            FileEntry::new("/r/b.tar.gz".to_string(), 10, false),
            FileEntry::new("/r/.hidden".to_string(), 10, false),
        ],
    );
    let text = build_size_breakdown_text(&tree.root);
    assert!(text.contains("% *.gz\n"));
    assert!(text.contains("% No extension\n"));
    assert!(!text.contains("tar"));
}
