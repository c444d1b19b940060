//! The query, the cursor over the ranked view, and what key events do to them.

use crate::catalog::Application;
use crate::catalog::Catalog;
use crate::launch::resolution;
use crate::launch::resolve;
use crate::launch::LaunchError;
use crate::ranking::rank;
use crate::ranking::ranked_view;
use crate::scoring::scorable;
use vstd::prelude::*;

verus! {

/// What a key asks for.
#[derive(Debug, Clone, Copy, PartialEq, Eq, Structural)]
pub enum Key {
    /// `j`: one entry down.
    MoveNext,
    /// `k`: one entry up.
    MovePrevious,
    /// `i`: back to the query field, remembering the cursor.
    EnterBrowse,
    /// `/`: the same as `i`.
    FocusSearch,
    /// Enter: launch the focused entry.
    Confirm,
    /// Any other key: nothing.
    Other,
}

/// The name under which the Enter key is reported.
pub open spec fn enter_name() -> Seq<char> {
    seq!['<', 'e', 'n', 't', 'e', 'r', '>']
}

/// The key that is reported under `name`.
pub open spec fn key_of(name: Seq<char>) -> Key {
    if name == seq!['j'] {
        Key::MoveNext
    } else if name == seq!['k'] {
        Key::MovePrevious
    } else if name == seq!['i'] {
        Key::EnterBrowse
    } else if name == seq!['/'] {
        Key::FocusSearch
    } else if name == enter_name() {
        Key::Confirm
    } else {
        Key::Other
    }
}

/// Tells which key is reported under `name`.
pub fn decode_key(name: &str) -> (key: Key)
    ensures
        key == key_of(name@),
{
    let n: usize = name.unicode_len();
    proof {
        assert(seq!['j'].len() == 1 && seq!['j'][0] == 'j');
        assert(seq!['k'].len() == 1 && seq!['k'][0] == 'k');
        assert(seq!['i'].len() == 1 && seq!['i'][0] == 'i');
        assert(seq!['/'].len() == 1 && seq!['/'][0] == '/');
        assert(enter_name().len() == 7);
    }
    if n == 1 {
        let c = name.get_char(0);
        if c == 'j' {
            proof {
                assert(name@ =~= seq!['j']);
            }
            Key::MoveNext
        } else if c == 'k' {
            proof {
                assert(name@ =~= seq!['k']);
            }
            Key::MovePrevious
        } else if c == 'i' {
            proof {
                assert(name@ =~= seq!['i']);
            }
            Key::EnterBrowse
        } else if c == '/' {
            proof {
                assert(name@ =~= seq!['/']);
            }
            Key::FocusSearch
        } else {
            Key::Other
        }
    } else if n == 7 {
        let same = name.get_char(0) == '<' && name.get_char(1) == 'e' && name.get_char(2) == 'n'
            && name.get_char(3) == 't' && name.get_char(4) == 'e' && name.get_char(5) == 'r'
            && name.get_char(6) == '>';
        proof {
            let enter = enter_name();
            assert(enter[0] == '<' && enter[1] == 'e' && enter[2] == 'n' && enter[3] == 't'
                && enter[4] == 'e' && enter[5] == 'r' && enter[6] == '>');
            if same {
                assert(name@ =~= enter);
            }
        }
        if same {
            Key::Confirm
        } else {
            Key::Other
        }
    } else {
        Key::Other
    }
}

/// A key as the keyboard reports it.
#[derive(Debug, Clone)]
pub enum KeyPress {
    /// A key that types the given text.
    Character(String),
    /// The Enter key.
    Enter,
    /// Any other key.
    Unnamed,
}

/// An event that reaches the launcher.
#[derive(Debug, Clone)]
pub enum Message {
    /// The query field now holds this text.
    SearchChanged(String),
    /// The key of this name was pressed.
    KeyPressed(String),
}

/// The text of the message that reports `press`, if one does.
pub open spec fn reported_name(press: KeyPress) -> Option<Seq<char>> {
    match press {
        KeyPress::Character(text) => Some(text@),
        KeyPress::Enter => Some(enter_name()),
        KeyPress::Unnamed => None,
    }
}

/// The message that reports a key press: a typing key under the text it
/// types, Enter under its own name, any other key not at all.
pub fn message_for(press: KeyPress) -> (message: Option<Message>)
    ensures
        match message {
            Some(Message::KeyPressed(name)) => reported_name(press) == Some(name@),
            Some(Message::SearchChanged(_)) => false,
            None => reported_name(press).is_none(),
        },
{
    match press {
        KeyPress::Character(text) => Some(Message::KeyPressed(text)),
        KeyPress::Enter => {
            let name = "<enter>".to_owned();
            proof {
                reveal_strlit("<enter>");
                assert(name@ =~= enter_name());
            }
            Some(Message::KeyPressed(name))
        },
        KeyPress::Unnamed => None,
    }
}

/// The cursor one step down: it stops at the largest value.
pub open spec fn cursor_after(cursor: usize) -> usize {
    if cursor < usize::MAX {
        (cursor + 1) as usize
    } else {
        cursor
    }
}

/// The cursor one step up: it stops at zero.
pub open spec fn cursor_before(cursor: usize) -> usize {
    if cursor > 0 {
        (cursor - 1) as usize
    } else {
        cursor
    }
}

/// What the launcher knows between two events.
pub struct Nav {
    /// The text of the query field.
    pub query: Seq<char>,
    /// Zero while the query field has the focus, else the position, counted
    /// from one, of the focused entry of the view.
    pub cursor: usize,
    /// The cursor that was left for the query field, until it is taken up
    /// again.
    pub saved_cursor: Option<usize>,
}

impl Nav {
    /// The state in which a session begins: no query, the first entry focused.
    pub open spec fn initial() -> Nav {
        Nav { query: Seq::empty(), cursor: 1, saved_cursor: None }
    }

    /// The state with the saved cursor, if there is one, taken up again.
    pub open spec fn restored(self) -> Nav {
        match self.saved_cursor {
            Some(saved) => Nav { cursor: saved, saved_cursor: None, ..self },
            None => self,
        }
    }

    /// The state after the query field changed to `text`.
    pub open spec fn after_text(self, text: Seq<char>) -> Nav {
        Nav { query: text, cursor: 0, saved_cursor: None }
    }

    /// The state after `key` was pressed.
    pub open spec fn after_key(self, key: Key) -> Nav {
        match key {
            Key::MoveNext => Nav { cursor: cursor_after(self.restored().cursor), ..self.restored() },
            Key::MovePrevious => Nav {
                cursor: cursor_before(self.restored().cursor),
                ..self.restored()
            },
            Key::EnterBrowse | Key::FocusSearch => Nav {
                cursor: 0,
                saved_cursor: Some(self.cursor),
                ..self
            },
            Key::Confirm | Key::Other => self,
        }
    }

    /// The state after `message` arrived.
    pub open spec fn after(self, message: Message) -> Nav {
        match message {
            Message::SearchChanged(text) => self.after_text(text@),
            Message::KeyPressed(name) => self.after_key(key_of(name@)),
        }
    }

    /// The state after `key` was pressed `times` times.
    pub open spec fn after_keys(self, key: Key, times: nat) -> Nav
        decreases times,
    {
        if times == 0 {
            self
        } else {
            self.after_key(key).after_keys(key, (times - 1) as nat)
        }
    }
}

/// What the caller is to do after an event.
#[derive(Debug)]
pub struct Outcome {
    /// `None` unless the event was a confirmation; then the launch command to
    /// start, or why there is none.
    pub launch: Option<Result<String, LaunchError>>,
    /// Whether the query field is to get the input focus.
    pub focus_search: bool,
}

/// What pressing `key` asks of the caller, in state `state` over a catalog
/// that holds `entries`: a confirmation resolves the cursor against the view
/// for the query as it is now, and any key that leaves the cursor at zero
/// hands the focus to the query field.
pub open spec fn key_outcome(state: Nav, entries: Seq<Application>, key: Key) -> Outcome {
    Outcome {
        launch: if key == Key::Confirm {
            Some(resolution(ranked_view(entries, state.query), state.cursor))
        } else {
            None
        },
        focus_search: state.after_key(key).cursor == 0,
    }
}

/// What `message` asks of the caller.
pub open spec fn outcome_of(state: Nav, entries: Seq<Application>, message: Message) -> Outcome {
    match message {
        Message::SearchChanged(_) => Outcome { launch: None, focus_search: false },
        Message::KeyPressed(name) => key_outcome(state, entries, key_of(name@)),
    }
}

/// The state of the launcher: the query, the cursor and the saved cursor.
#[derive(Debug)]
pub struct NavState {
    query: String,
    cursor: usize,
    saved_cursor: Option<usize>,
}

impl View for NavState {
    type V = Nav;

    closed spec fn view(&self) -> Nav {
        Nav { query: self.query@, cursor: self.cursor, saved_cursor: self.saved_cursor }
    }
}

impl NavState {
    #[verifier::type_invariant]
    spec fn sound(&self) -> bool {
        scorable(self.query@)
    }

    /// The state in which a session begins.
    pub fn new() -> (state: NavState)
        ensures
            state@ == Nav::initial(),
    {
        NavState { query: String::new(), cursor: 1, saved_cursor: None }
    }

    /// The state with the given query, cursor and saved cursor.
    pub fn from_parts(query: String, cursor: usize, saved_cursor: Option<usize>) -> (state:
        NavState)
        requires
            scorable(query@),
        ensures
            state@ == (Nav { query: query@, cursor, saved_cursor }),
    {
        NavState { query, cursor, saved_cursor }
    }

    /// The text of the query field.
    pub fn query(&self) -> (query: &String)
        ensures
            query@ == self@.query,
            scorable(query@),
    {
        proof {
            use_type_invariant(self);
        }
        &self.query
    }

    /// The cursor.
    pub fn cursor(&self) -> (cursor: usize)
        ensures
            cursor == self@.cursor,
    {
        self.cursor
    }

    /// The saved cursor.
    pub fn saved_cursor(&self) -> (saved: Option<usize>)
        ensures
            saved == self@.saved_cursor,
    {
        self.saved_cursor
    }

    /// Tells whether the entry at `index` of the view, counted from zero, has
    /// the focus.
    pub fn is_focused(&self, index: usize) -> (yes: bool)
        ensures
            yes == (index + 1 == self@.cursor),
    {
        self.cursor > 0 && self.cursor - 1 == index
    }

    /// The view of `catalog` for the query as it is now.
    pub fn view_of(&self, catalog: &Catalog) -> (view: Vec<Application>)
        ensures
            view@ == ranked_view(catalog@, self@.query),
    {
        proof {
            use_type_invariant(self);
        }
        rank(catalog, self.query.as_str())
    }

    /// Resolves the cursor against the view of `catalog` for the query as it
    /// is now.
    pub fn confirm(&self, catalog: &Catalog) -> (result: Result<String, LaunchError>)
        ensures
            result == resolution(ranked_view(catalog@, self@.query), self@.cursor),
    {
        let view = self.view_of(catalog);
        resolve(&view, self.cursor)
    }

    /// The query field changed to `text`: the cursor goes to the query field
    /// and the saved cursor is forgotten.
    pub fn on_search_changed(&mut self, text: String)
        requires
            scorable(text@),
        ensures
            final(self)@ == old(self)@.after_text(text@),
    {
        self.query = text;
        self.saved_cursor = None;
        self.cursor = 0;
    }

    /// `key` was pressed.
    pub fn on_key(&mut self, catalog: &Catalog, key: Key) -> (outcome: Outcome)
        ensures
            final(self)@ == old(self)@.after_key(key),
            outcome == key_outcome(old(self)@, catalog@, key),
    {
        let mut launch: Option<Result<String, LaunchError>> = None;
        proof {
            use_type_invariant(&*self);
        }
        match key {
            Key::MoveNext => {
                self.restore();
                proof {
                    use_type_invariant(&*self);
                }
                if self.cursor < usize::MAX {
                    self.cursor = self.cursor + 1;
                }
            },
            Key::MovePrevious => {
                self.restore();
                proof {
                    use_type_invariant(&*self);
                }
                if self.cursor > 0 {
                    self.cursor = self.cursor - 1;
                }
            },
            Key::EnterBrowse | Key::FocusSearch => {
                self.saved_cursor = Some(self.cursor);
                self.cursor = 0;
            },
            Key::Confirm => {
                launch = Some(self.confirm(catalog));
            },
            Key::Other => {},
        }
        Outcome { launch, focus_search: self.cursor == 0 }
    }

    /// Takes the saved cursor up again, if there is one.
    fn restore(&mut self)
        ensures
            final(self)@ == old(self)@.restored(),
    {
        proof {
            use_type_invariant(&*self);
        }
        if let Some(saved) = self.saved_cursor {
            self.cursor = saved;
            self.saved_cursor = None;
        }
    }

    /// `message` arrived.
    pub fn update(&mut self, catalog: &Catalog, message: Message) -> (outcome: Outcome)
        requires
            message matches Message::SearchChanged(text) ==> scorable(text@),
        ensures
            final(self)@ == old(self)@.after(message),
            outcome == outcome_of(old(self)@, catalog@, message),
    {
        match message {
            Message::SearchChanged(text) => {
                self.on_search_changed(text);
                Outcome { launch: None, focus_search: false }
            },
            Message::KeyPressed(name) => {
                let key = decode_key(name.as_str());
                self.on_key(catalog, key)
            },
        }
    }
}

/// Moving up from the query field changes nothing, however often: the cursor
/// never goes below zero.
pub proof fn lemma_previous_stops_at_zero(state: Nav, times: nat)
    requires
        state.cursor == 0,
        state.saved_cursor.is_none(),
    ensures
        state.after_keys(Key::MovePrevious, times) == state,
    decreases times,
{
    if times > 0 {
        assert(state.after_key(Key::MovePrevious) == state);
        lemma_previous_stops_at_zero(state, (times - 1) as nat);
    }
}

/// Moving down from the largest cursor changes nothing, however often: the
/// cursor never wraps round.
pub proof fn lemma_next_stops_at_largest(state: Nav, times: nat)
    requires
        state.cursor == usize::MAX,
        state.saved_cursor.is_none(),
    ensures
        state.after_keys(Key::MoveNext, times) == state,
    decreases times,
{
    if times > 0 {
        assert(state.after_key(Key::MoveNext) == state);
        lemma_next_stops_at_largest(state, (times - 1) as nat);
    }
}

/// Moving changes the cursor by at most one, measured from the cursor that
/// was saved where one was, and leaves nothing saved.
pub proof fn lemma_moves_are_single_steps(state: Nav)
    ensures
        state.after_key(Key::MoveNext).saved_cursor.is_none(),
        state.after_key(Key::MovePrevious).saved_cursor.is_none(),
        state.restored().cursor <= state.after_key(Key::MoveNext).cursor <= state.restored().cursor
            + 1,
        state.restored().cursor - 1 <= state.after_key(Key::MovePrevious).cursor
            <= state.restored().cursor,
        state.after_key(Key::MoveNext).query == state.query,
        state.after_key(Key::MovePrevious).query == state.query,
{
}

/// Leaving for the query field and then moving down leads to the entry after
/// the one that was left, with nothing saved; moving up, to the one before it.
pub proof fn lemma_browse_then_move(state: Nav, leave: Key)
    requires
        leave == Key::EnterBrowse || leave == Key::FocusSearch,
    ensures
        state.after_key(leave) == (Nav { cursor: 0, saved_cursor: Some(state.cursor), ..state }),
        state.after_key(leave).after_key(Key::MoveNext) == (Nav {
            cursor: cursor_after(state.cursor),
            saved_cursor: None,
            ..state
        }),
        state.after_key(leave).after_key(Key::MovePrevious) == (Nav {
            cursor: cursor_before(state.cursor),
            saved_cursor: None,
            ..state
        }),
{
}

/// A confirmation changes nothing in the state, whatever it resolves to, and
/// with the cursor behind the end of the view it resolves to `OutOfRange`.
pub proof fn lemma_confirm_keeps_state(state: Nav, entries: Seq<Application>)
    ensures
        state.after_key(Key::Confirm) == state,
        state.cursor > ranked_view(entries, state.query).len() ==> key_outcome(
            state,
            entries,
            Key::Confirm,
        ).launch == Some(Err::<String, LaunchError>(LaunchError::OutOfRange)),
{
}

} // verus!
