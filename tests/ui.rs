use arustylock::ui::{
    clear_input, handle_add_keyevent, handle_home_keyevent, handle_passwords_keyevent, Action,
    Event, InputMode, InputState, Key, MenuItem,
};

#[test]
fn menu_items_have_tab_indices() {
    assert_eq!(usize::from(MenuItem::Home), 0);
    assert_eq!(usize::from(MenuItem::Passwords), 1);
    assert_eq!(usize::from(MenuItem::AddPassword), 2);
}

#[test]
fn input_mode_defaults_to_domain_normal() {
    assert_eq!(InputMode::default(), InputMode::DomainNormal);
}

#[test]
fn clear_input_empties_all_fields() {
    let mut s = InputState::new();
    s.input_domain = "d".to_string();
    s.input_username = "u".to_string();
    s.input_password = "p".to_string();
    s.input_mode = InputMode::PasswordNormal;
    clear_input(&mut s);
    assert_eq!(s.input_domain, "");
    assert_eq!(s.input_username, "");
    assert_eq!(s.input_password, "");
    assert_eq!(s.input_mode, InputMode::PasswordNormal);
}

#[test]
fn home_keys_navigate_and_quit() {
    let mut m = MenuItem::Home;
    assert_eq!(handle_home_keyevent(&Event::Input(Key::Char('p')), &mut m), Action::Nothing);
    assert_eq!(m, MenuItem::Passwords);
    assert_eq!(handle_home_keyevent(&Event::Input(Key::Char('a')), &mut m), Action::Nothing);
    assert_eq!(m, MenuItem::AddPassword);
    assert_eq!(handle_home_keyevent(&Event::Tick, &mut m), Action::Nothing);
    assert_eq!(m, MenuItem::AddPassword);
    assert_eq!(handle_home_keyevent(&Event::Input(Key::Char('q')), &mut m), Action::Quit);
}

#[test]
fn list_selection_wraps_both_ways() {
    let mut m = MenuItem::Passwords;
    let mut sel = Some(2usize);
    let j = Event::Input(Key::Char('j'));
    let k = Event::Input(Key::Char('k'));
    handle_passwords_keyevent(&j, &mut m, &mut sel, 3);
    assert_eq!(sel, Some(0));
    handle_passwords_keyevent(&k, &mut m, &mut sel, 3);
    assert_eq!(sel, Some(2));
    handle_passwords_keyevent(&k, &mut m, &mut sel, 3);
    assert_eq!(sel, Some(1));
    handle_passwords_keyevent(&j, &mut m, &mut sel, 0);
    assert_eq!(sel, Some(1));
    assert_eq!(
        handle_passwords_keyevent(&Event::Input(Key::Char('d')), &mut m, &mut sel, 3),
        Action::DeleteSelected
    );
    assert_eq!(m, MenuItem::Passwords);
    handle_passwords_keyevent(&Event::Input(Key::Char('h')), &mut m, &mut sel, 3);
    assert_eq!(m, MenuItem::Home);
}

fn press(s: &mut InputState, m: &mut MenuItem, k: Key) -> Action {
    handle_add_keyevent(&Event::Input(k), m, s)
}

#[test]
fn add_form_typing_and_submit() {
    let mut s = InputState::new();
    let mut m = MenuItem::AddPassword;
    press(&mut s, &mut m, Key::Char('i'));
    assert_eq!(s.input_mode, InputMode::DomainEditing);
    for c in "hxa".chars() {
        press(&mut s, &mut m, Key::Char(c));
    }
    press(&mut s, &mut m, Key::Backspace);
    assert_eq!(s.input_domain, "hx");
    assert_eq!(m, MenuItem::AddPassword);
    press(&mut s, &mut m, Key::Esc);
    press(&mut s, &mut m, Key::Char('j'));
    assert_eq!(s.input_mode, InputMode::UsernameNormal);
    press(&mut s, &mut m, Key::Char('i'));
    press(&mut s, &mut m, Key::Char('é'));
    press(&mut s, &mut m, Key::Esc);
    press(&mut s, &mut m, Key::Char('j'));
    press(&mut s, &mut m, Key::Char('i'));
    press(&mut s, &mut m, Key::Char('q'));
    assert_eq!(s.input_password, "q");
    assert_eq!(press(&mut s, &mut m, Key::Enter), Action::Submit);
    let p = s.to_password();
    assert_eq!(p.domain, "hx");
    assert_eq!(p.username, "é");
    assert_eq!(p.password, "q");
    press(&mut s, &mut m, Key::Esc);
    assert_eq!(s.input_mode, InputMode::PasswordNormal);
    assert_eq!(press(&mut s, &mut m, Key::Enter), Action::Submit);
    press(&mut s, &mut m, Key::Char('k'));
    assert_eq!(s.input_mode, InputMode::UsernameNormal);
    press(&mut s, &mut m, Key::Char('k'));
    assert_eq!(s.input_mode, InputMode::DomainNormal);
    assert_eq!(press(&mut s, &mut m, Key::Char('q')), Action::Quit);
    press(&mut s, &mut m, Key::Char('h'));
    assert_eq!(m, MenuItem::Home);
}

#[test]
fn backspace_on_empty_field_keeps_it_empty() {
    let mut s = InputState::new();
    let mut m = MenuItem::AddPassword;
    press(&mut s, &mut m, Key::Char('i'));
    press(&mut s, &mut m, Key::Backspace);
    assert_eq!(s.input_domain, "");
    assert_eq!(handle_add_keyevent(&Event::Tick, &mut m, &mut s), Action::Nothing);
}
