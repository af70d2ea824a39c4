use tft_optimiser::app::App;
use tft_optimiser::input::Key;
use tft_optimiser::selector::auto::AutoSelector;
use tft_optimiser::selector::champion::ChampionSelector;
use tft_optimiser::selector::trait_selector::TraitSelector;

fn names(v: &[&str]) -> Vec<String> {
    v.iter().map(|s| s.to_string()).collect()
}

fn type_word(app: &mut App, word: &str) {
    for c in word.chars() {
        app.on_key(Key::Char(c));
    }
}

#[test]
fn app_starts_with_defaults() {
    let app = App::new(names(&["Ahri", "Brand"]));
    assert!(!app.should_quit);
    assert_eq!(app.selected_size, 7);
    assert_eq!(app.max_cost, 6);
    assert_eq!(app.active_selector, 0);
    assert!(app.core_units.is_empty());
}

#[test]
fn app_quits_on_q() {
    let mut app = App::new(names(&[]));
    app.on_key(Key::Char('q'));
    assert!(app.should_quit);
}

#[test]
fn app_size_and_cost_stay_in_range() {
    let mut app = App::new(names(&[]));
    for _ in 0..20 {
        app.on_key(Key::Right);
    }
    assert_eq!(app.selected_size, 10);
    for _ in 0..20 {
        app.on_key(Key::Left);
    }
    assert_eq!(app.selected_size, 1);
    // Row 2 drives the cost cap.
    app.on_key(Key::Down);
    app.on_key(Key::Down);
    for _ in 0..20 {
        app.on_key(Key::Left);
    }
    assert_eq!(app.max_cost, 1);
    for _ in 0..20 {
        app.on_key(Key::Right);
    }
    assert_eq!(app.max_cost, 6);
    for _ in 0..9 {
        app.on_key(Key::Down);
    }
    assert_eq!(app.active_selector, 4);
}

#[test]
fn app_autocomplete_is_case_insensitive_and_sorted() {
    let mut app = App::new(names(&["Brand", "Annie", "Anivia", "ahri"]));
    app.on_key(Key::Down);
    app.on_key(Key::Enter);
    type_word(&mut app, "a");
    assert_eq!(app.autocomplete_suggestions, names(&["Anivia", "Annie", "ahri"]));
    type_word(&mut app, "n");
    assert_eq!(app.autocomplete_suggestions, names(&["Anivia", "Annie"]));
    app.on_key(Key::Down);
    app.on_key(Key::Enter);
    assert_eq!(app.core_units, names(&["Annie"]));
    assert!(app.input_buffer.is_empty());
}

#[test]
fn app_enter_without_suggestions_keeps_the_typed_name() {
    let mut app = App::new(names(&["Brand"]));
    app.on_key(Key::Down);
    app.on_key(Key::Enter);
    type_word(&mut app, "zz");
    assert!(app.autocomplete_suggestions.is_empty());
    app.on_key(Key::Enter);
    assert_eq!(app.core_units, names(&["zz"]));
}

#[test]
fn app_backspace_recalls_the_last_core_unit() {
    let mut app = App::new(names(&["Brand"]));
    app.on_key(Key::Down);
    app.on_key(Key::Enter);
    type_word(&mut app, "b");
    app.on_key(Key::Enter);
    assert_eq!(app.core_units, names(&["Brand"]));
    app.on_key(Key::Backspace);
    assert!(app.core_units.is_empty());
    assert_eq!(app.input_buffer, "Brand");
}

#[test]
fn auto_selector_picks_by_cursor() {
    let mut sel = AutoSelector::new(names(&["Frost", "Flame", "Fae"]));
    sel.on_key(Key::Char('f'));
    assert_eq!(sel.suggestions, names(&["Fae", "Flame", "Frost"]));
    sel.on_key(Key::Down);
    sel.on_key(Key::Down);
    sel.on_key(Key::Down);
    assert_eq!(sel.selected_suggestion, 2);
    sel.on_key(Key::Up);
    assert_eq!(sel.selected_suggestion, 1);
    sel.on_key(Key::Enter);
    assert_eq!(sel.selected_values, names(&["Flame"]));
    assert!(sel.suggestions.is_empty());
}

#[test]
fn champion_selector_duplicate_options_collapse() {
    let mut sel = ChampionSelector::new(names(&["Ahri", "Ahri", "Brand"]));
    sel.on_key(Key::Char('a'));
    assert_eq!(sel.suggestions, names(&["Ahri"]));
    sel.on_key(Key::Enter);
    assert_eq!(sel.selected_values, names(&["Ahri"]));
}

#[test]
fn trait_selector_collects_a_requirement() {
    let mut sel = TraitSelector::new(names(&["Sorcerer", "Sentinel"]));
    sel.on_key(Key::Char('s'));
    sel.on_key(Key::Char('o'));
    sel.on_key(Key::Enter);
    assert!(sel.is_entering_number);
    sel.on_key(Key::Char('4'));
    sel.on_key(Key::Enter);
    assert_eq!(sel.selected_values, vec![("Sorcerer".to_string(), 4u32)]);
    assert!(!sel.is_entering_number);
}

#[test]
fn trait_selector_rejects_an_overflowing_count() {
    let mut sel = TraitSelector::new(names(&["Sorcerer"]));
    sel.on_key(Key::Char('s'));
    sel.on_key(Key::Enter);
    for _ in 0..11 {
        sel.on_key(Key::Char('9'));
    }
    sel.on_key(Key::Enter);
    assert!(sel.selected_values.is_empty());
    assert!(sel.is_entering_number);
}

#[test]
fn trait_selector_accepts_the_largest_count() {
    let mut sel = TraitSelector::new(names(&["Sorcerer"]));
    sel.on_key(Key::Char('s'));
    sel.on_key(Key::Enter);
    for c in "4294967295".chars() {
        sel.on_key(Key::Char(c));
    }
    sel.on_key(Key::Enter);
    assert_eq!(sel.selected_values, vec![("Sorcerer".to_string(), u32::MAX)]);
}

#[test]
fn trait_selector_backspace_takes_two_digits() {
    let mut sel = TraitSelector::new(names(&["Sorcerer"]));
    sel.on_key(Key::Char('s'));
    sel.on_key(Key::Enter);
    sel.on_key(Key::Char('1'));
    sel.on_key(Key::Char('2'));
    sel.on_key(Key::Char('3'));
    sel.on_key(Key::Backspace);
    assert_eq!(sel.number_input, "1");
    assert!(sel.is_entering_number);
    sel.on_key(Key::Backspace);
    assert_eq!(sel.number_input, "");
    assert!(sel.is_entering_number);
    // On an empty count buffer a backspace leaves number entry.
    sel.on_key(Key::Backspace);
    assert!(!sel.is_entering_number);
}

#[test]
fn trait_selector_ignores_letters_in_the_count() {
    let mut sel = TraitSelector::new(names(&["Sorcerer"]));
    sel.on_key(Key::Char('s'));
    sel.on_key(Key::Enter);
    sel.on_key(Key::Char('x'));
    assert_eq!(sel.number_input, "");
    sel.on_key(Key::Char('7'));
    assert_eq!(sel.number_input, "7");
}
