use the_algorithms::morse_code;

#[test]
fn encrypt_only_letters() {
    let message = "Hello Morse";
    let cipher = morse_code(message);
    assert_eq!(cipher, ".... . .-.. .-.. --- / -- --- .-. ... .".to_string())
}

#[test]
fn encrypt_letters_and_special_characters() {
    let message = "What's a great day!";
    let cipher = morse_code(message);
    assert_eq!(
        cipher,
        ".-- .... .- - .----. ... / .- / --. .-. . .- - / -.. .- -.-- -.-.--".to_string()
    )
}

#[test]
fn encrypt_message_with_unsupported_character() {
    let message = "Error?? {}";
    let cipher = morse_code(message);
    assert_eq!(
        cipher,
        ". .-. .-. --- .-. ..--.. ..--.. / ........ ........".to_string()
    )
}

#[test]
fn encrypt_empty_message() {
    assert_eq!(morse_code(""), "".to_string());
}

#[test]
fn encrypt_digits() {
    assert_eq!(morse_code("10"), ".---- -----".to_string());
}

#[test]
fn encrypt_single_char_uppercase_foldings() {
    // dotless i and long s uppercase to I and S
    assert_eq!(morse_code("\u{131}\u{17f}"), ".. ...".to_string());
}
