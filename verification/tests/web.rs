//! Locators, XPath literals, key codes and shell words for the browser commands.

use rach::web::{button_xpath, download_command, guess_locator, key_to_unicode, shell_quote, tab_index, xpath_escape};

#[test]
fn xpath_literals_pick_a_quote_that_works() {
    assert_eq!(xpath_escape("plain"), "'plain'");
    assert_eq!(xpath_escape("it's"), "\"it's\"");
    assert_eq!(xpath_escape("a'b\"c"), "concat('a', \"'\", 'b\"c')");
    assert_eq!(
        button_xpath("Go"),
        "//button[normalize-space()='Go'] | //input[(@type='submit' or @type='button') and (@value='Go' or @aria-label='Go')] | //*[@role='button' and (normalize-space()='Go' or @aria-label='Go')] | //a[normalize-space()='Go']"
    );
}

#[test]
fn shell_words_survive_quotes() {
    assert_eq!(shell_quote("it's"), "'it'\\''s'");
    assert_eq!(download_command("http://x/a b", "/tmp/o"), "curl -L -o '/tmp/o' 'http://x/a b'");
}

#[test]
fn locators_are_guessed_from_their_shape() {
    assert_eq!(guess_locator("//div"), ("xpath", "//div".to_string()));
    assert_eq!(guess_locator("#main"), ("css selector", "#main".to_string()));
    assert_eq!(guess_locator("div span"), ("css selector", "div span".to_string()));
    assert_eq!(guess_locator("q"), ("css selector", "[id='q'],[name='q']".to_string()));
    assert_eq!(guess_locator("o'k"), ("css selector", "[id='o\\'k'],[name='o\\'k']".to_string()));
}

#[test]
fn key_names_map_to_webdriver_codes() {
    assert_eq!(key_to_unicode("Enter"), Some("\u{E007}"));
    assert_eq!(key_to_unicode("PAGE_DOWN"), Some("\u{E00F}"));
    assert_eq!(key_to_unicode("hyper"), None);
    assert_eq!(tab_index(0), 0);
    assert_eq!(tab_index(3), 2);
}
