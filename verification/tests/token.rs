use ankifruit_core::token::alphabet_char;
use ankifruit_core::token::new_token;
use ankifruit_core::token::token_from_draws;

#[test]
fn minted_tokens_have_32_alphanumeric_chars() {
    for _ in 0..20 {
        let t = new_token().expect("the system random generator");
        assert_eq!(t.len(), 32);
        assert!(t.chars().all(|c| c.is_ascii_lowercase() || c.is_ascii_digit()), "{t}");
    }
}

#[test]
fn minted_tokens_differ() {
    let a = new_token().expect("the system random generator");
    let b = new_token().expect("the system random generator");
    assert_ne!(a, b);
}

#[test]
fn draws_spell_the_alphabet() {
    let all: Vec<usize> = (0..36).collect();
    assert_eq!(token_from_draws(&all), "abcdefghijklmnopqrstuvwxyz0123456789");
    assert_eq!(alphabet_char(0), 'a');
    assert_eq!(alphabet_char(25), 'z');
    assert_eq!(alphabet_char(26), '0');
    assert_eq!(alphabet_char(35), '9');
    assert_eq!(token_from_draws(&[]), "");
}
