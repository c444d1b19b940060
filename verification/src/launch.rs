//! From the focused entry to the program to start.

use crate::catalog::Application;
use vstd::prelude::*;

verus! {

/// Why a confirmation starts nothing.
#[derive(Debug, Clone, Copy, PartialEq, Eq, Structural)]
pub enum LaunchError {
    /// The cursor is on the query field, not on an entry.
    NoSelection,
    /// The cursor is behind the last entry of the view.
    OutOfRange,
}

/// What a confirmation resolves to: position `cursor` of the view, counted
/// from one, names the entry whose launch command is started.
pub open spec fn resolution(view: Seq<Application>, cursor: usize) -> Result<String, LaunchError> {
    if cursor == 0 {
        Err(LaunchError::NoSelection)
    } else if cursor <= view.len() {
        Ok(view[cursor - 1].command)
    } else {
        Err(LaunchError::OutOfRange)
    }
}

/// Resolves the cursor against the view.
pub fn resolve(view: &Vec<Application>, cursor: usize) -> (result: Result<String, LaunchError>)
    ensures
        result == resolution(view@, cursor),
{
    if cursor == 0 {
        Err(LaunchError::NoSelection)
    } else if cursor <= view.len() {
        Ok(view[cursor - 1].command.clone())
    } else {
        Err(LaunchError::OutOfRange)
    }
}

/// Whether `c` is white space: a character with the Unicode property
/// `White_Space`.
pub open spec fn is_space(c: char) -> bool {
    let u = c as u32;
    ||| 0x09 <= u <= 0x0D
    ||| u == 0x20
    ||| u == 0x85
    ||| u == 0xA0
    ||| u == 0x1680
    ||| 0x2000 <= u <= 0x200A
    ||| u == 0x2028
    ||| u == 0x2029
    ||| u == 0x202F
    ||| u == 0x205F
    ||| u == 0x3000
}

/// Tells whether `c` is white space.
pub fn is_whitespace(c: char) -> (yes: bool)
    ensures
        yes == is_space(c),
{
    let u: u32 = c as u32;
    (0x09 <= u && u <= 0x0D) || u == 0x20 || u == 0x85 || u == 0xA0 || u == 0x1680 || (0x2000 <= u
        && u <= 0x200A) || u == 0x2028 || u == 0x2029 || u == 0x202F || u == 0x205F || u == 0x3000
}

/// The word `open`, if it has begun.
pub open spec fn closed_word(open: Seq<char>) -> Seq<Seq<char>> {
    if open.len() > 0 {
        seq![open]
    } else {
        Seq::empty()
    }
}

/// The words of `rest`, read from the left, where `open` is the part of a
/// word that was read just before it.
pub open spec fn words_after(open: Seq<char>, rest: Seq<char>) -> Seq<Seq<char>>
    decreases rest.len(),
{
    if rest.len() == 0 {
        closed_word(open)
    } else if is_space(rest[0]) {
        closed_word(open) + words_after(Seq::empty(), rest.drop_first())
    } else {
        words_after(open.push(rest[0]), rest.drop_first())
    }
}

/// The words of `text`: its longest stretches without white space, from left
/// to right.
pub open spec fn words(text: Seq<char>) -> Seq<Seq<char>> {
    words_after(Seq::empty(), text)
}

/// The texts of a sequence of strings.
pub open spec fn texts(strings: Seq<String>) -> Seq<Seq<char>> {
    Seq::new(strings.len(), |k: int| strings[k]@)
}

/// A program and the arguments it is started with.
#[derive(Debug)]
pub struct Invocation {
    /// The program.
    pub program: String,
    /// Its arguments, in order.
    pub args: Vec<String>,
}

/// Whether `invocation` is what the words `parts` say: the first is the
/// program, the others are its arguments.
pub open spec fn invokes(invocation: Invocation, parts: Seq<Seq<char>>) -> bool {
    &&& parts.len() > 0
    &&& invocation.program@ == parts[0]
    &&& texts(invocation.args@) == parts.drop_first()
}

/// Splits `text` into its words.
pub fn split_words(text: &str) -> (parts: Vec<String>)
    ensures
        texts(parts@) == words(text@),
{
    let n: usize = text.unicode_len();
    let mut parts: Vec<String> = Vec::new();
    let mut i: usize = 0;
    let mut start: usize = 0;
    proof {
        assert(text@.skip(0) =~= text@);
        assert(text@.subrange(0, 0) =~= Seq::<char>::empty());
        assert(texts(parts@) + words(text@) =~= words(text@));
    }
    while i < n
        invariant
            n == text@.len(),
            start <= i <= n,
            words(text@) == texts(parts@) + words_after(
                text@.subrange(start as int, i as int),
                text@.skip(i as int),
            ),
        decreases n - i,
    {
        let c = text.get_char(i);
        let ghost open = text@.subrange(start as int, i as int);
        let ghost rest = text@.skip(i as int);
        let ghost before = texts(parts@);
        proof {
            assert(rest[0] == c);
            assert(rest.drop_first() =~= text@.skip(i + 1));
        }
        if is_whitespace(c) {
            if start < i {
                let word = text.substring_char(start, i).to_owned();
                parts.push(word);
                proof {
                    assert(texts(parts@) =~= before + closed_word(open));
                }
            } else {
                proof {
                    assert(before + closed_word(open) =~= before);
                }
            }
            start = i + 1;
            proof {
                assert(text@.subrange(start as int, i + 1) =~= Seq::<char>::empty());
                assert(before + (closed_word(open) + words_after(
                    Seq::empty(),
                    rest.drop_first(),
                )) =~= (before + closed_word(open)) + words_after(
                    Seq::empty(),
                    rest.drop_first(),
                ));
            }
        } else {
            proof {
                assert(open.push(c) =~= text@.subrange(start as int, i + 1));
            }
        }
        i += 1;
    }
    proof {
        assert(text@.skip(n as int) =~= Seq::<char>::empty());
    }
    if start < n {
        let ghost before = texts(parts@);
        let word = text.substring_char(start, n).to_owned();
        parts.push(word);
        proof {
            assert(texts(parts@) =~= before + closed_word(text@.subrange(start as int, n as int)));
        }
    } else {
        proof {
            assert(texts(parts@) + closed_word(text@.subrange(start as int, n as int)) =~= texts(
                parts@,
            ));
        }
    }
    parts
}

/// Splits a launch command into the program and its arguments, at white
/// space and nowhere else: no quoting is known. A command without a word
/// starts nothing.
pub fn split_command(command: &str) -> (result: Option<Invocation>)
    ensures
        match result {
            Some(invocation) => invokes(invocation, words(command@)),
            None => words(command@).len() == 0,
        },
{
    let mut parts = split_words(command);
    if parts.len() == 0 {
        return None;
    }
    let ghost all = parts@;
    let program = parts.remove(0);
    proof {
        assert(texts(parts@) =~= texts(all).drop_first());
    }
    Some(Invocation { program, args: parts })
}

/// Whether `word` is not empty and holds no white space.
pub open spec fn is_solid(word: Seq<char>) -> bool {
    word.len() > 0 && forall|m: int| 0 <= m < word.len() ==> !is_space(#[trigger] word[m])
}

/// No word is empty, and no word holds white space.
pub proof fn lemma_words_are_solid(text: Seq<char>)
    ensures
        forall|k: int| 0 <= k < words(text).len() ==> is_solid(#[trigger] words(text)[k]),
{
    lemma_words_after_are_solid(Seq::empty(), text);
}

proof fn lemma_words_after_are_solid(open: Seq<char>, rest: Seq<char>)
    requires
        forall|m: int| 0 <= m < open.len() ==> !is_space(#[trigger] open[m]),
    ensures
        forall|k: int|
            0 <= k < words_after(open, rest).len() ==> is_solid(#[trigger] words_after(open, rest)[k]),
    decreases rest.len(),
{
    let found = words_after(open, rest);
    if rest.len() == 0 {
        assert forall|k: int| 0 <= k < found.len() implies is_solid(#[trigger] found[k]) by {
            assert(found[k] == open);
        }
    } else if is_space(rest[0]) {
        let later = words_after(Seq::empty(), rest.drop_first());
        lemma_words_after_are_solid(Seq::empty(), rest.drop_first());
        assert forall|k: int| 0 <= k < found.len() implies is_solid(#[trigger] found[k]) by {
            if k < closed_word(open).len() {
                assert(found[k] == open);
            } else {
                assert(found[k] == later[k - closed_word(open).len()]);
            }
        }
    } else {
        let longer = open.push(rest[0]);
        assert forall|m: int| 0 <= m < longer.len() implies !is_space(#[trigger] longer[m]) by {
            if m < open.len() {
                assert(longer[m] == open[m]);
            }
        }
        lemma_words_after_are_solid(longer, rest.drop_first());
        assert(found == words_after(longer, rest.drop_first()));
    }
}

/// The words of a text, joined in order, are the text without its white
/// space: splitting loses no other character and adds none.
pub proof fn lemma_words_keep_the_text(text: Seq<char>)
    ensures
        words(text).flatten() == text.filter(|c: char| !is_space(c)),
{
    let solid = |c: char| !is_space(c);
    lemma_words_after_keep_the_text(Seq::empty(), text, solid);
    assert(Seq::<char>::empty() + text.filter(solid) =~= text.filter(solid));
}

proof fn lemma_words_after_keep_the_text(
    open: Seq<char>,
    rest: Seq<char>,
    solid: spec_fn(char) -> bool,
)
    requires
        forall|c: char| solid(c) == !is_space(c),
    ensures
        words_after(open, rest).flatten() == open + rest.filter(solid),
    decreases rest.len(),
{
    if rest.len() == 0 {
        rest.lemma_filter_len(solid);
        assert(open + rest.filter(solid) =~= open);
        lemma_closed_word_flattens(open);
    } else {
        let c = rest[0];
        let tail = rest.drop_first();
        assert(rest =~= seq![c] + tail);
        tail.lemma_filter_prepend(c, solid);
        if is_space(c) {
            lemma_words_after_keep_the_text(Seq::empty(), tail, solid);
            lemma_closed_word_flattens(open);
            vstd::seq_lib::lemma_flatten_concat(
                closed_word(open),
                words_after(Seq::empty(), tail),
            );
            assert(open + (Seq::<char>::empty() + tail.filter(solid)) =~= open + (Seq::<
                char,
            >::empty() + tail.filter(solid)));
        } else {
            lemma_words_after_keep_the_text(open.push(c), tail, solid);
            assert(open.push(c) + tail.filter(solid) =~= open + (seq![c] + tail.filter(solid)));
        }
    }
}

proof fn lemma_closed_word_flattens(open: Seq<char>)
    ensures
        closed_word(open).flatten() == open,
{
    if open.len() > 0 {
        seq![open].lemma_flatten_one_element();
    } else {
        assert(open =~= Seq::<char>::empty());
    }
}

} // verus!
