use dw::backends::web::google_translate_token::{get_tk, State};

#[test]
fn test_1() {
    let state = State::new();
    let text: Vec<char> = "fuck you".chars().collect();
    let r = state.sM(&text);
    println!("{}", r);
    assert_eq!(r, "&tk=29405446294054");
}

#[test]
fn token_of_other_texts() {
    assert_eq!(get_tk("hello"), "&tk=55426046554260");
    assert_eq!(get_tk("他妈的"), "&tk=71073346710733");
    assert_eq!(get_tk("fuck you"), "&tk=29405446294054");
}

#[test]
fn refreshing_the_key_keeps_the_token() {
    let mut state = State::new();
    let text: Vec<char> = "hello".chars().collect();
    let before = state.sM(&text);
    state.updateTKK();
    assert_eq!(state.sM(&text), before);
}
