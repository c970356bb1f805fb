//! What the terminal front end decides on each key press: which screen is
//! shown, which form field is edited, and which store operation to run.
use crate::record::{Password, PasswordView};
use vstd::prelude::*;

verus! {

/// The screens of the front end, in tab order.
#[derive(Clone, Copy, Debug, PartialEq, Eq, Structural)]
pub enum MenuItem {
    Home,
    Passwords,
    AddPassword,
}

/// The tab index of a screen.
pub open spec fn menu_index(m: MenuItem) -> usize {
    match m {
        MenuItem::Home => 0,
        MenuItem::Passwords => 1,
        MenuItem::AddPassword => 2,
    }
}

impl From<MenuItem> for usize {
    fn from(input: MenuItem) -> (r: usize)
        ensures
            r == menu_index(input),
    {
        match input {
            MenuItem::Home => 0,
            MenuItem::Passwords => 1,
            MenuItem::AddPassword => 2,
        }
    }
}

impl vstd::std_specs::convert::FromSpecImpl<MenuItem> for usize {
    open spec fn obeys_from_spec() -> bool {
        true
    }

    open spec fn from_spec(v: MenuItem) -> usize {
        menu_index(v)
    }
}

/// Where the add form's cursor is, and whether that field takes typing.
#[derive(Clone, Copy, Debug, PartialEq, Eq, Structural)]
pub enum InputMode {
    DomainEditing,
    DomainNormal,
    UsernameEditing,
    UsernameNormal,
    PasswordEditing,
    PasswordNormal,
}

impl Default for InputMode {
    fn default() -> (r: Self)
        ensures
            r == InputMode::DomainNormal,
    {
        InputMode::DomainNormal
    }
}

/// The add form: the three texts typed so far and the cursor.
pub struct InputState {
    pub input_domain: String,
    pub input_username: String,
    pub input_password: String,
    pub input_mode: InputMode,
}

impl InputState {
    /// An empty form with the cursor on the domain field.
    pub fn new() -> (r: InputState)
        ensures
            r.input_domain@ == Seq::<char>::empty(),
            r.input_username@ == Seq::<char>::empty(),
            r.input_password@ == Seq::<char>::empty(),
            r.input_mode == InputMode::DomainNormal,
    {
        InputState {
            input_domain: String::new(),
            input_username: String::new(),
            input_password: String::new(),
            input_mode: InputMode::DomainNormal,
        }
    }

    /// The record that the form describes.
    pub fn to_password(&self) -> (r: Password)
        ensures
            r@ == (PasswordView {
                domain: self.input_domain@,
                username: self.input_username@,
                password: self.input_password@,
            }),
    {
        Password::new(
            self.input_domain.clone(),
            self.input_username.clone(),
            self.input_password.clone(),
        )
    }
}

/// Empties the form's three texts; the cursor stays where it is.
pub fn clear_input(input_state: &mut InputState)
    ensures
        final(input_state).input_domain@ == Seq::<char>::empty(),
        final(input_state).input_username@ == Seq::<char>::empty(),
        final(input_state).input_password@ == Seq::<char>::empty(),
        final(input_state).input_mode == old(input_state).input_mode,
{
    input_state.input_domain = String::new();
    input_state.input_username = String::new();
    input_state.input_password = String::new();
}

/// A key as the front end sees it.
#[derive(Clone, Copy, Debug, PartialEq, Eq, Structural)]
pub enum Key {
    Char(char),
    Esc,
    Backspace,
    Enter,
    Other,
}

/// What reaches the front end's loop: a key press or a timer tick.
#[derive(Clone, Copy, Debug, PartialEq, Eq, Structural)]
pub enum Event {
    Input(Key),
    Tick,
}

/// What the caller is to do after a key press.
#[derive(Clone, Copy, Debug, PartialEq, Eq, Structural)]
pub enum Action {
    Nothing,
    Quit,
    /// Store the record that the add form describes, then clear the form.
    Submit,
    /// Remove the selected record.
    DeleteSelected,
}

/// The screen that a navigation key leads to.
pub open spec fn menu_for_key(c: char) -> Option<MenuItem> {
    if c == 'h' {
        Some(MenuItem::Home)
    } else if c == 'p' {
        Some(MenuItem::Passwords)
    } else if c == 'a' {
        Some(MenuItem::AddPassword)
    } else {
        None
    }
}

fn menu_for_key_exec(c: char) -> (r: Option<MenuItem>)
    ensures
        r == menu_for_key(c),
{
    if c == 'h' {
        Some(MenuItem::Home)
    } else if c == 'p' {
        Some(MenuItem::Passwords)
    } else if c == 'a' {
        Some(MenuItem::AddPassword)
    } else {
        None
    }
}

/// The screen after `e` on a screen where navigation keys apply.
pub open spec fn menu_after(active: MenuItem, e: Event) -> MenuItem {
    match e {
        Event::Input(Key::Char(c)) => match menu_for_key(c) {
            Some(m) => m,
            None => active,
        },
        _ => active,
    }
}

/// The action of `e` on a screen where `q` quits.
pub open spec fn quit_action(e: Event) -> Action {
    if e == Event::Input(Key::Char('q')) {
        Action::Quit
    } else {
        Action::Nothing
    }
}

/// Key handling on the home screen.
pub fn handle_home_keyevent(key_event: &Event, active_menu_item: &mut MenuItem) -> (r: Action)
    ensures
        *final(active_menu_item) == menu_after(*old(active_menu_item), *key_event),
        r == quit_action(*key_event),
{
    navigate(key_event, active_menu_item)
}

/// Applies a navigation key and tells whether `q` was pressed.
fn navigate(key_event: &Event, active_menu_item: &mut MenuItem) -> (r: Action)
    ensures
        *final(active_menu_item) == menu_after(*old(active_menu_item), *key_event),
        r == quit_action(*key_event),
{
    match *key_event {
        Event::Input(Key::Char(c)) => {
            if c == 'q' {
                return Action::Quit;
            }
            match menu_for_key_exec(c) {
                Some(m) => {
                    *active_menu_item = m;
                },
                None => {},
            }
            Action::Nothing
        },
        _ => Action::Nothing,
    }
}

/// The selection after moving down one record among `count`, wrapping to the top.
pub open spec fn select_next(selected: Option<usize>, count: usize) -> Option<usize> {
    match selected {
        Some(s) => {
            if count == 0 {
                selected
            } else if s >= count - 1 {
                Some(0usize)
            } else {
                Some((s + 1) as usize)
            }
        },
        None => None,
    }
}

/// The selection after moving up one record among `count`, wrapping to the bottom.
pub open spec fn select_previous(selected: Option<usize>, count: usize) -> Option<usize> {
    match selected {
        Some(s) => {
            if count == 0 {
                selected
            } else if s == 0 {
                Some((count - 1) as usize)
            } else {
                Some((s - 1) as usize)
            }
        },
        None => None,
    }
}

/// The selection after `e` on the list of `count` records.
pub open spec fn selection_after(selected: Option<usize>, count: usize, e: Event) -> Option<usize> {
    if e == Event::Input(Key::Char('j')) {
        select_next(selected, count)
    } else if e == Event::Input(Key::Char('k')) {
        select_previous(selected, count)
    } else {
        selected
    }
}

/// Key handling on the list screen, which shows `count` records.
pub fn handle_passwords_keyevent(
    key_event: &Event,
    active_menu_item: &mut MenuItem,
    selected: &mut Option<usize>,
    count: usize,
) -> (r: Action)
    ensures
        *final(active_menu_item) == menu_after(*old(active_menu_item), *key_event),
        *final(selected) == selection_after(*old(selected), count, *key_event),
        r == (if *key_event == Event::Input(Key::Char('d')) {
            Action::DeleteSelected
        } else {
            quit_action(*key_event)
        }),
{
    if *key_event == Event::Input(Key::Char('d')) {
        return Action::DeleteSelected;
    }
    if *key_event == Event::Input(Key::Char('j')) {
        if let Some(s) = *selected {
            if count > 0 {
                if s >= count - 1 {
                    *selected = Some(0);
                } else {
                    *selected = Some(s + 1);
                }
            }
        }
        return Action::Nothing;
    }
    if *key_event == Event::Input(Key::Char('k')) {
        if let Some(s) = *selected {
            if count > 0 {
                if s == 0 {
                    *selected = Some(count - 1);
                } else {
                    *selected = Some(s - 1);
                }
            }
        }
        return Action::Nothing;
    }
    navigate(key_event, active_menu_item)
}

/// Relies on String::push: appends one character.
#[verifier::external_body]
fn push_char(s: &mut String, c: char)
    ensures
        final(s)@ == old(s)@.push(c),
{
    s.push(c)
}

/// Relies on String::pop: removes and returns the last character, if there is one.
#[verifier::external_body]
fn pop_char(s: &mut String) -> (r: Option<char>)
    ensures
        old(s)@.len() == 0 ==> r is None && final(s)@ == old(s)@,
        old(s)@.len() > 0 ==> r == Some(old(s)@.last()) && final(s)@ == old(s)@.drop_last(),
{
    s.pop()
}

/// A text after a key typed into it: a character is appended, backspace
/// drops the last character.
pub open spec fn edited(text: Seq<char>, k: Key) -> Seq<char> {
    match k {
        Key::Char(c) => text.push(c),
        Key::Backspace => {
            if text.len() > 0 {
                text.drop_last()
            } else {
                text
            }
        },
        _ => text,
    }
}

/// The modes in which keys are typed into a field.
pub open spec fn is_editing(mode: InputMode) -> bool {
    mode == InputMode::DomainEditing || mode == InputMode::UsernameEditing || mode
        == InputMode::PasswordEditing
}

/// The form's cursor after key `k`.
pub open spec fn mode_after_key(mode: InputMode, k: Key) -> InputMode {
    match mode {
        InputMode::DomainNormal => {
            if k == Key::Char('i') {
                InputMode::DomainEditing
            } else if k == Key::Char('j') {
                InputMode::UsernameNormal
            } else {
                mode
            }
        },
        InputMode::UsernameNormal => {
            if k == Key::Char('i') {
                InputMode::UsernameEditing
            } else if k == Key::Char('j') {
                InputMode::PasswordNormal
            } else if k == Key::Char('k') {
                InputMode::DomainNormal
            } else {
                mode
            }
        },
        InputMode::PasswordNormal => {
            if k == Key::Char('i') {
                InputMode::PasswordEditing
            } else if k == Key::Char('k') {
                InputMode::UsernameNormal
            } else {
                mode
            }
        },
        InputMode::DomainEditing => {
            if k == Key::Esc {
                InputMode::DomainNormal
            } else {
                mode
            }
        },
        InputMode::UsernameEditing => {
            if k == Key::Esc {
                InputMode::UsernameNormal
            } else {
                mode
            }
        },
        InputMode::PasswordEditing => {
            if k == Key::Esc {
                InputMode::PasswordNormal
            } else {
                mode
            }
        },
    }
}

/// The form's cursor after `e`.
pub open spec fn mode_after(mode: InputMode, e: Event) -> InputMode {
    match e {
        Event::Input(k) => mode_after_key(mode, k),
        Event::Tick => mode,
    }
}

/// A field's text after `e`, when `field_mode` is the mode that edits it.
pub open spec fn field_after(text: Seq<char>, mode: InputMode, field_mode: InputMode, e: Event) -> Seq<
    char,
> {
    match e {
        Event::Input(k) => {
            if mode == field_mode && k != Key::Esc {
                edited(text, k)
            } else {
                text
            }
        },
        Event::Tick => text,
    }
}

/// What the caller is to do after `e` on the add form.
pub open spec fn add_action(mode: InputMode, e: Event) -> Action {
    if e == Event::Input(Key::Enter) && (mode == InputMode::PasswordNormal || mode
        == InputMode::PasswordEditing) {
        Action::Submit
    } else if is_editing(mode) {
        Action::Nothing
    } else {
        quit_action(e)
    }
}

/// Types `k` into `text`.
fn type_key(text: &mut String, k: Key)
    ensures
        final(text)@ == edited(old(text)@, k),
{
    match k {
        Key::Char(c) => push_char(text, c),
        Key::Backspace => {
            pop_char(text);
        },
        _ => {},
    }
}

/// Key handling on the add form.
pub fn handle_add_keyevent(
    key_event: &Event,
    active_menu_item: &mut MenuItem,
    input_state: &mut InputState,
) -> (r: Action)
    ensures
        final(input_state).input_mode == mode_after(old(input_state).input_mode, *key_event),
        final(input_state).input_domain@ == field_after(
            old(input_state).input_domain@,
            old(input_state).input_mode,
            InputMode::DomainEditing,
            *key_event,
        ),
        final(input_state).input_username@ == field_after(
            old(input_state).input_username@,
            old(input_state).input_mode,
            InputMode::UsernameEditing,
            *key_event,
        ),
        final(input_state).input_password@ == field_after(
            old(input_state).input_password@,
            old(input_state).input_mode,
            InputMode::PasswordEditing,
            *key_event,
        ),
        *final(active_menu_item) == (if is_editing(old(input_state).input_mode) {
            *old(active_menu_item)
        } else {
            menu_after(*old(active_menu_item), *key_event)
        }),
        r == add_action(old(input_state).input_mode, *key_event),
{
    let k = match *key_event {
        Event::Input(k) => k,
        Event::Tick => {
            return Action::Nothing;
        },
    };
    let mode = input_state.input_mode;
    match mode {
        InputMode::DomainEditing | InputMode::UsernameEditing | InputMode::PasswordEditing => {
            if k == Key::Esc {
                input_state.input_mode = match mode {
                    InputMode::DomainEditing => InputMode::DomainNormal,
                    InputMode::UsernameEditing => InputMode::UsernameNormal,
                    _ => InputMode::PasswordNormal,
                };
                return Action::Nothing;
            }
            match mode {
                InputMode::DomainEditing => type_key(&mut input_state.input_domain, k),
                InputMode::UsernameEditing => type_key(&mut input_state.input_username, k),
                _ => type_key(&mut input_state.input_password, k),
            }
            if k == Key::Enter && mode == InputMode::PasswordEditing {
                Action::Submit
            } else {
                Action::Nothing
            }
        },
        _ => {
            if k == Key::Enter && mode == InputMode::PasswordNormal {
                return Action::Submit;
            }
            if k == Key::Char('i') {
                input_state.input_mode = match mode {
                    InputMode::DomainNormal => InputMode::DomainEditing,
                    InputMode::UsernameNormal => InputMode::UsernameEditing,
                    _ => InputMode::PasswordEditing,
                };
                return Action::Nothing;
            }
            if k == Key::Char('j') && mode != InputMode::PasswordNormal {
                input_state.input_mode = if mode == InputMode::DomainNormal {
                    InputMode::UsernameNormal
                } else {
                    InputMode::PasswordNormal
                };
                return Action::Nothing;
            }
            if k == Key::Char('k') && mode != InputMode::DomainNormal {
                input_state.input_mode = if mode == InputMode::UsernameNormal {
                    InputMode::DomainNormal
                } else {
                    InputMode::UsernameNormal
                };
                return Action::Nothing;
            }
            navigate(key_event, active_menu_item)
        },
    }
}

} // verus!
