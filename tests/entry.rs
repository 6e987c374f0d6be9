use avl::entry::{Command, Entry, KeyPress};

fn typed(entry: &Entry) -> String {
    entry.text().iter().collect()
}

fn press_all(entry: &mut Entry, keys: Vec<KeyPress>) -> Vec<Option<Command>> {
    keys.into_iter().map(|k| entry.press(k)).collect()
}

#[test]
fn digits_accumulate_and_enter_inserts() {
    let mut entry = Entry::new();
    let out = press_all(&mut entry, vec![KeyPress::Digit(4), KeyPress::Digit(2)]);
    assert_eq!(out, vec![None, None]);
    assert_eq!(typed(&entry), "42");
    assert_eq!(entry.press(KeyPress::Enter), Some(Command::Insert(42)));
    assert_eq!(typed(&entry), "");
}

#[test]
fn minus_only_at_start_and_delete_removes() {
    let mut entry = Entry::new();
    press_all(
        &mut entry,
        vec![KeyPress::Minus, KeyPress::Digit(7), KeyPress::Minus, KeyPress::Digit(0)],
    );
    assert_eq!(typed(&entry), "-70");
    assert_eq!(entry.press(KeyPress::Delete), Some(Command::Remove(-70)));
    assert_eq!(typed(&entry), "");
}

#[test]
fn back_drops_last_character() {
    let mut entry = Entry::new();
    press_all(&mut entry, vec![KeyPress::Digit(1), KeyPress::Digit(2), KeyPress::Back]);
    assert_eq!(typed(&entry), "1");
    press_all(&mut entry, vec![KeyPress::Back, KeyPress::Back]);
    assert_eq!(typed(&entry), "");
}

#[test]
fn enter_on_empty_or_lone_minus_gives_nothing() {
    let mut entry = Entry::new();
    assert_eq!(entry.press(KeyPress::Enter), None);
    entry.press(KeyPress::Minus);
    assert_eq!(entry.press(KeyPress::Enter), None);
    assert_eq!(typed(&entry), "");
}

#[test]
fn other_keys_change_nothing() {
    let mut entry = Entry::new();
    entry.press(KeyPress::Digit(3));
    assert_eq!(entry.press(KeyPress::Other), None);
    assert_eq!(typed(&entry), "3");
}

#[test]
fn leading_zeros_are_read() {
    let mut entry = Entry::new();
    press_all(&mut entry, vec![KeyPress::Digit(0), KeyPress::Digit(0), KeyPress::Digit(9)]);
    assert_eq!(entry.press(KeyPress::Enter), Some(Command::Insert(9)));
}

fn digits(s: &str) -> Vec<KeyPress> {
    s.chars()
        .map(|c| match c {
            '-' => KeyPress::Minus,
            d => KeyPress::Digit(d.to_digit(10).unwrap() as u8),
        })
        .collect()
}

#[test]
fn i32_limits_are_accepted() {
    let mut entry = Entry::new();
    press_all(&mut entry, digits("2147483647"));
    assert_eq!(entry.press(KeyPress::Enter), Some(Command::Insert(i32::MAX)));
    press_all(&mut entry, digits("-2147483648"));
    assert_eq!(entry.press(KeyPress::Enter), Some(Command::Insert(i32::MIN)));
}

#[test]
fn numbers_out_of_i32_range_are_dropped() {
    let mut entry = Entry::new();
    press_all(&mut entry, digits("2147483648"));
    assert_eq!(entry.press(KeyPress::Enter), None);
    press_all(&mut entry, digits("-2147483649"));
    assert_eq!(entry.press(KeyPress::Delete), None);
    press_all(&mut entry, digits("99999999999999999999999"));
    assert_eq!(entry.press(KeyPress::Enter), None);
    assert_eq!(typed(&entry), "");
}
