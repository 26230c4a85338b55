use plaka::charset::CharClass;
use plaka::text::slice;

fn members(class: CharClass) -> Vec<u8> {
    (0u8..=255).filter(|b| class.has(*b)).collect()
}

#[test]
fn keyword_bytes_are_letters_digits_and_the_dash() {
    let mut expected: Vec<u8> = vec![b'-'];
    expected.extend(b'0'..=b'9');
    expected.extend(b'A'..=b'Z');
    expected.extend(b'a'..=b'z');
    assert_eq!(members(CharClass::Keyword), expected);
}

#[test]
fn space_bytes_are_space_and_tab() {
    assert_eq!(members(CharClass::Space), vec![b'\t', b' ']);
}

#[test]
fn argument_bytes_are_all_but_space_tab_and_newline() {
    let expected: Vec<u8> =
        (0u8..=255).filter(|b| *b != b' ' && *b != b'\t' && *b != b'\n').collect();
    assert_eq!(members(CharClass::Argument), expected);
    assert_eq!(expected.len(), 253);
}

#[test]
fn base64_bytes_are_the_alphabet_and_the_padding() {
    let mut expected: Vec<u8> = vec![b'+', b'/'];
    expected.extend(b'0'..=b'9');
    expected.push(b'=');
    expected.extend(b'A'..=b'Z');
    expected.extend(b'a'..=b'z');
    assert_eq!(members(CharClass::Base64), expected);
    assert_eq!(expected.len(), 65);
}

#[test]
fn slice_is_the_piece_between_two_byte_positions() {
    let input = "ab \u{e9}\u{1f600} cd";
    assert_eq!(slice(input, 0, 2), "ab");
    assert_eq!(slice(input, 3, 9), "\u{e9}\u{1f600}");
    assert_eq!(slice(input, 10, 12), "cd");
    assert_eq!(slice(input, 5, 5), "");
    assert_eq!(slice(input, 0, 12), input);
}
