//! Morse encoding: each character becomes its Morse token (any character
//! whose Unicode uppercase is a letter of the table, so letters
//! case-insensitively plus dotless i and long s; digits; common
//! punctuation; `/` for a space; eight dots for anything unrecognised),
//! and the tokens are joined with single spaces.

use vstd::prelude::*;
use crate::chars::push_char;
use crate::chars::str_chars;

verus! {

/// The Morse token of a single character.
pub open spec fn morse_sym(c: char) -> Seq<char> {
    if c == 'a' || c == 'A' {
        seq!['.', '-']
    } else if c == 'b' || c == 'B' {
        seq!['-', '.', '.', '.']
    } else if c == 'c' || c == 'C' {
        seq!['-', '.', '-', '.']
    } else if c == 'd' || c == 'D' {
        seq!['-', '.', '.']
    } else if c == 'e' || c == 'E' {
        seq!['.']
    } else if c == 'f' || c == 'F' {
        seq!['.', '.', '-', '.']
    } else if c == 'g' || c == 'G' {
        seq!['-', '-', '.']
    } else if c == 'h' || c == 'H' {
        seq!['.', '.', '.', '.']
    } else if c == 'i' || c == 'I' || c == '\u{131}' {
        seq!['.', '.']
    } else if c == 'j' || c == 'J' {
        seq!['.', '-', '-', '-']
    } else if c == 'k' || c == 'K' {
        seq!['-', '.', '-']
    } else if c == 'l' || c == 'L' {
        seq!['.', '-', '.', '.']
    } else if c == 'm' || c == 'M' {
        seq!['-', '-']
    } else if c == 'n' || c == 'N' {
        seq!['-', '.']
    } else if c == 'o' || c == 'O' {
        seq!['-', '-', '-']
    } else if c == 'p' || c == 'P' {
        seq!['.', '-', '-', '.']
    } else if c == 'q' || c == 'Q' {
        seq!['-', '-', '.', '-']
    } else if c == 'r' || c == 'R' {
        seq!['.', '-', '.']
    } else if c == 's' || c == 'S' || c == '\u{17f}' {
        seq!['.', '.', '.']
    } else if c == 't' || c == 'T' {
        seq!['-']
    } else if c == 'u' || c == 'U' {
        seq!['.', '.', '-']
    } else if c == 'v' || c == 'V' {
        seq!['.', '.', '.', '-']
    } else if c == 'w' || c == 'W' {
        seq!['.', '-', '-']
    } else if c == 'x' || c == 'X' {
        seq!['-', '.', '.', '-']
    } else if c == 'y' || c == 'Y' {
        seq!['-', '.', '-', '-']
    } else if c == 'z' || c == 'Z' {
        seq!['-', '-', '.', '.']
    } else if c == '1' {
        seq!['.', '-', '-', '-', '-']
    } else if c == '2' {
        seq!['.', '.', '-', '-', '-']
    } else if c == '3' {
        seq!['.', '.', '.', '-', '-']
    } else if c == '4' {
        seq!['.', '.', '.', '.', '-']
    } else if c == '5' {
        seq!['.', '.', '.', '.', '.']
    } else if c == '6' {
        seq!['-', '.', '.', '.', '.']
    } else if c == '7' {
        seq!['-', '-', '.', '.', '.']
    } else if c == '8' {
        seq!['-', '-', '-', '.', '.']
    } else if c == '9' {
        seq!['-', '-', '-', '-', '.']
    } else if c == '0' {
        seq!['-', '-', '-', '-', '-']
    } else if c == '&' {
        seq!['.', '-', '.', '.', '.']
    } else if c == '@' {
        seq!['.', '-', '-', '.', '-', '.']
    } else if c == ':' {
        seq!['-', '-', '-', '.', '.', '.']
    } else if c == ',' {
        seq!['-', '-', '.', '.', '-', '-']
    } else if c == '.' {
        seq!['.', '-', '.', '-', '.', '-']
    } else if c == '\'' {
        seq!['.', '-', '-', '-', '-', '.']
    } else if c == '"' {
        seq!['.', '-', '.', '.', '-', '.']
    } else if c == '?' {
        seq!['.', '.', '-', '-', '.', '.']
    } else if c == '/' {
        seq!['-', '.', '.', '-', '.']
    } else if c == '=' {
        seq!['-', '.', '.', '.', '-']
    } else if c == '+' {
        seq!['.', '-', '.', '-', '.']
    } else if c == '-' {
        seq!['-', '.', '.', '.', '.', '-']
    } else if c == '(' {
        seq!['-', '.', '-', '-', '.']
    } else if c == ')' {
        seq!['-', '.', '-', '-', '.', '-']
    } else if c == ' ' {
        seq!['/']
    } else if c == '!' {
        seq!['-', '.', '-', '.', '-', '-']
    } else {
        seq!['.', '.', '.', '.', '.', '.', '.', '.']
    }
}

/// The Morse encoding of a message: the characters' tokens joined with
/// single spaces.
pub open spec fn morse_spec(s: Seq<char>) -> Seq<char>
    decreases s.len(),
{
    if s.len() == 0 {
        Seq::empty()
    } else if s.len() == 1 {
        morse_sym(s[0])
    } else {
        morse_sym(s[0]) + seq![' '] + morse_spec(s.drop_first())
    }
}

proof fn lemma_morse_append(s: Seq<char>, c: char)
    ensures
        morse_spec(s.push(c)) == (if s.len() == 0 {
            morse_sym(c)
        } else {
            morse_spec(s) + seq![' '] + morse_sym(c)
        }),
    decreases s.len(),
{
    let p = s.push(c);
    if s.len() == 0 {
        assert(p.len() == 1);
        assert(p[0] == c);
    } else {
        assert(p[0] == s[0]);
        assert(p.drop_first() =~= s.drop_first().push(c));
        lemma_morse_append(s.drop_first(), c);
        if s.len() == 1 {
            assert(s.drop_first().len() == 0);
            assert(morse_spec(p) == morse_sym(s[0]) + seq![' '] + morse_sym(c));
            assert(morse_spec(s) == morse_sym(s[0]));
        } else {
            assert(morse_spec(p) == morse_sym(s[0]) + seq![' '] + (morse_spec(s.drop_first())
                + seq![' '] + morse_sym(c)));
            assert(morse_spec(s) + seq![' '] + morse_sym(c) == (morse_sym(s[0]) + seq![' ']
                + morse_spec(s.drop_first())) + seq![' '] + morse_sym(c));
            assert(morse_sym(s[0]) + seq![' '] + (morse_spec(s.drop_first()) + seq![' ']
                + morse_sym(c)) =~= (morse_sym(s[0]) + seq![' '] + morse_spec(s.drop_first()))
                + seq![' '] + morse_sym(c));
        }
    }
}

/// The Morse token of one character, as a string.
fn morse_token(c: char) -> (t: String)
    ensures
        t@ == morse_sym(c),
{
    let pattern: &str = match c {
        'a' | 'A' => ".-",
        'b' | 'B' => "-...",
        'c' | 'C' => "-.-.",
        'd' | 'D' => "-..",
        'e' | 'E' => ".",
        'f' | 'F' => "..-.",
        'g' | 'G' => "--.",
        'h' | 'H' => "....",
        'i' | 'I' | '\u{131}' => "..",
        'j' | 'J' => ".---",
        'k' | 'K' => "-.-",
        'l' | 'L' => ".-..",
        'm' | 'M' => "--",
        'n' | 'N' => "-.",
        'o' | 'O' => "---",
        'p' | 'P' => ".--.",
        'q' | 'Q' => "--.-",
        'r' | 'R' => ".-.",
        's' | 'S' | '\u{17f}' => "...",
        't' | 'T' => "-",
        'u' | 'U' => "..-",
        'v' | 'V' => "...-",
        'w' | 'W' => ".--",
        'x' | 'X' => "-..-",
        'y' | 'Y' => "-.--",
        'z' | 'Z' => "--..",
        '1' => ".----",
        '2' => "..---",
        '3' => "...--",
        '4' => "....-",
        '5' => ".....",
        '6' => "-....",
        '7' => "--...",
        '8' => "---..",
        '9' => "----.",
        '0' => "-----",
        '&' => ".-...",
        '@' => ".--.-.",
        ':' => "---...",
        ',' => "--..--",
        '.' => ".-.-.-",
        '\'' => ".----.",
        '"' => ".-..-.",
        '?' => "..--..",
        '/' => "-..-.",
        '=' => "-...-",
        '+' => ".-.-.",
        '-' => "-....-",
        '(' => "-.--.",
        ')' => "-.--.-",
        ' ' => "/",
        '!' => "-.-.--",
        _ => "........",
    };
    proof {
        reveal_strlit(".-");
        reveal_strlit("-...");
        reveal_strlit("-.-.");
        reveal_strlit("-..");
        reveal_strlit(".");
        reveal_strlit("..-.");
        reveal_strlit("--.");
        reveal_strlit("....");
        reveal_strlit("..");
        reveal_strlit(".---");
        reveal_strlit("-.-");
        reveal_strlit(".-..");
        reveal_strlit("--");
        reveal_strlit("-.");
        reveal_strlit("---");
        reveal_strlit(".--.");
        reveal_strlit("--.-");
        reveal_strlit(".-.");
        reveal_strlit("...");
        reveal_strlit("-");
        reveal_strlit("..-");
        reveal_strlit("...-");
        reveal_strlit(".--");
        reveal_strlit("-..-");
        reveal_strlit("-.--");
        reveal_strlit("--..");
        reveal_strlit(".----");
        reveal_strlit("..---");
        reveal_strlit("...--");
        reveal_strlit("....-");
        reveal_strlit(".....");
        reveal_strlit("-....");
        reveal_strlit("--...");
        reveal_strlit("---..");
        reveal_strlit("----.");
        reveal_strlit("-----");
        reveal_strlit(".-...");
        reveal_strlit(".--.-.");
        reveal_strlit("---...");
        reveal_strlit("--..--");
        reveal_strlit(".-.-.-");
        reveal_strlit(".----.");
        reveal_strlit(".-..-.");
        reveal_strlit("..--..");
        reveal_strlit("-..-.");
        reveal_strlit("-...-");
        reveal_strlit(".-.-.");
        reveal_strlit("-....-");
        reveal_strlit("-.--.");
        reveal_strlit("-.--.-");
        reveal_strlit("/");
        reveal_strlit("-.-.--");
        reveal_strlit("........");
        assert(pattern@ =~= morse_sym(c));
    }
    String::from_str(pattern)
}

/// Encodes a message as Morse code: each character's token, the tokens
/// joined with single spaces.
#[verifier::loop_isolation(false)]
pub fn morse_code(message: &str) -> (r: String)
    ensures
        r@ == morse_spec(message@),
{
    let chars = str_chars(message);
    let mut r = String::new();
    let n = chars.len();
    let mut i: usize = 0;
    while i < n
        invariant
            i <= n,
            r@ == morse_spec(chars@.take(i as int)),
        decreases n - i,
    {
        if i > 0 {
            push_char(&mut r, ' ');
        }
        let tok = morse_token(chars[i]);
        r.append(tok.as_str());
        proof {
            assert(chars@.take(i + 1) =~= chars@.take(i as int).push(chars@[i as int]));
            lemma_morse_append(chars@.take(i as int), chars@[i as int]);
            if i > 0 {
                assert(r@ =~= morse_spec(chars@.take(i as int)) + seq![' '] + morse_sym(
                    chars@[i as int],
                ));
            }
        }
        i = i + 1;
    }
    proof {
        assert(chars@.take(n as int) =~= chars@);
    }
    r
}

} // verus!
