use binary_tree::layout::{blank_rows, column_of, join_rows, power_of_two, slot_for, write_at};
use binary_tree::text::{decimal_text, string_of};

fn text(chars: &[char]) -> String {
    chars.iter().collect()
}

#[test]
fn decimal_text_of_small_values() {
    assert_eq!(text(&decimal_text(0)), "0");
    assert_eq!(text(&decimal_text(7)), "7");
    assert_eq!(text(&decimal_text(9)), "9");
    assert_eq!(text(&decimal_text(10)), "10");
    assert_eq!(text(&decimal_text(12345)), "12345");
    assert_eq!(text(&decimal_text(1000000)), "1000000");
}

#[test]
fn decimal_text_of_negative_values() {
    assert_eq!(text(&decimal_text(-1)), "-1");
    assert_eq!(text(&decimal_text(-10)), "-10");
    assert_eq!(text(&decimal_text(-90210)), "-90210");
}

#[test]
fn decimal_text_at_the_ends() {
    assert_eq!(text(&decimal_text(i32::MAX)), "2147483647");
    assert_eq!(text(&decimal_text(i32::MIN)), "-2147483648");
}

#[test]
fn decimal_text_agrees_with_std() {
    let mut v: i32 = -1_000_003;
    while v < 1_000_000 {
        assert_eq!(text(&decimal_text(v)), v.to_string());
        v += 7919;
    }
    for k in 0..31 {
        let p: i32 = 1 << k;
        assert_eq!(text(&decimal_text(p)), p.to_string());
        assert_eq!(text(&decimal_text(-p)), (-p).to_string());
        assert_eq!(text(&decimal_text(p - 1)), (p - 1).to_string());
    }
}

#[test]
fn powers_of_two() {
    assert_eq!(power_of_two(0), Some(1));
    assert_eq!(power_of_two(1), Some(2));
    assert_eq!(power_of_two(10), Some(1024));
    assert_eq!(power_of_two(31), Some(2147483648));
    let bits = usize::BITS as usize;
    assert_eq!(power_of_two(bits - 1), Some(1usize << (bits - 1)));
    assert_eq!(power_of_two(bits), None);
    assert_eq!(power_of_two(bits + 1), None);
    assert_eq!(power_of_two(usize::MAX), None);
}

#[test]
fn column_of_the_root() {
    assert_eq!(column_of(1, 0, 1), Some(2));
    assert_eq!(column_of(2, 0, 1), Some(4));
    assert_eq!(column_of(5, 0, 1), Some(32));
}

#[test]
fn column_of_values_below() {
    // 2^4 / 2^2 * 3
    assert_eq!(column_of(4, 2, 3), Some(12));
    assert_eq!(column_of(4, 1, 1), Some(8));
    assert_eq!(column_of(4, 1, 3), Some(24));
    assert_eq!(column_of(4, 3, 15), Some(30));
    assert_eq!(column_of(4, 3, 1), Some(2));
    assert_eq!(column_of(3, 3, 5), Some(5));
    assert_eq!(column_of(7, 7, 0), Some(0));
}

#[test]
fn column_below_the_last_level() {
    // 2^2 / 2^3 is 0
    assert_eq!(column_of(2, 3, 5), Some(0));
    assert_eq!(column_of(0, 1, usize::MAX), Some(0));
    assert_eq!(column_of(0, 0, 9), Some(9));
}

#[test]
fn column_beyond_usize() {
    let bits = usize::BITS as usize;
    assert_eq!(column_of(bits, 0, 1), None);
    assert_eq!(column_of(bits, 0, 0), Some(0));
    assert_eq!(column_of(bits, 1, 1), Some(1usize << (bits - 1)));
    assert_eq!(column_of(bits, 1, 2), None);
    assert_eq!(column_of(bits - 1, 0, 3), None);
    assert_eq!(column_of(usize::MAX, usize::MAX, usize::MAX), Some(usize::MAX));
}

#[test]
fn slots_are_as_wide_as_the_greatest_value() {
    assert_eq!(slot_for(10), 2);
    assert_eq!(slot_for(99), 2);
    assert_eq!(slot_for(100), 3);
    assert_eq!(slot_for(999), 3);
    assert_eq!(slot_for(1000), 4);
    assert_eq!(slot_for(i32::MAX), 10);
}

#[test]
fn slots_below_ten_are_two_wide() {
    assert_eq!(slot_for(1), 2);
    assert_eq!(slot_for(5), 2);
    assert_eq!(slot_for(9), 2);
}

#[test]
fn slots_where_nothing_is_positive() {
    assert_eq!(slot_for(0), 2);
    assert_eq!(slot_for(-1), 2);
    assert_eq!(slot_for(-12345), 2);
    assert_eq!(slot_for(i32::MIN), 2);
}

#[test]
fn blank_rows_are_spaces() {
    let rows = blank_rows(3, 5);
    assert_eq!(rows.len(), 3);
    for row in &rows {
        assert_eq!(text(row), "     ");
    }
    assert_eq!(blank_rows(0, 5).len(), 0);
    let rows = blank_rows(2, 0);
    assert_eq!(rows.len(), 2);
    assert!(rows[0].is_empty());
}

#[test]
fn write_at_covers_what_was_there() {
    let mut row: Vec<char> = "abcdefgh".chars().collect();
    let word: Vec<char> = "XYZ".chars().collect();
    write_at(&mut row, 2, &word);
    assert_eq!(text(&row), "abXYZfgh");
    write_at(&mut row, 5, &word);
    assert_eq!(text(&row), "abXYZXYZ");
    write_at(&mut row, 0, &word);
    assert_eq!(text(&row), "XYZYZXYZ");
    write_at(&mut row, 8, &Vec::new());
    assert_eq!(text(&row), "XYZYZXYZ");
}

#[test]
fn joined_rows_end_in_line_feeds() {
    let rows: Vec<Vec<char>> = vec!["ab".chars().collect(), Vec::new(), " c ".chars().collect()];
    assert_eq!(text(&join_rows(&rows)), "ab\n\n c \n");
    assert_eq!(text(&join_rows(&Vec::new())), "");
}

#[test]
fn string_of_keeps_every_character() {
    let chars: Vec<char> = vec!['a', ' ', '-', '7', '\n', 'z'];
    assert_eq!(string_of(&chars), "a -7\nz");
    assert_eq!(string_of(&Vec::new()), "");
    assert_eq!(string_of(&decimal_text(-305)), "-305");
}
