//! Mods: commands sent to script runners, and the rules on mod names and
//! mod folders.
use vstd::prelude::*;

verus! {

pub enum ModCmd {
    /// Initialise all loaded mods, spawning script runners and
    /// runs the entry script for each mod.
    Init,
    /// Gracefully shuts down the thread running the Lua state.
    Shutdown,
    /// Scene lifetime hook.
    Scene(SceneHook),
    /// Placeholder for custom game input commands
    Game,
}

pub enum SceneHook {
    /// Scene has started.
    AfterStart,
}

/// A character allowed in a mod name: an ASCII letter or digit, a hyphen or
/// an underscore.
pub open spec fn is_mod_name_char(c: char) -> bool {
    ||| ('a' <= c && c <= 'z')
    ||| ('A' <= c && c <= 'Z')
    ||| ('0' <= c && c <= '9')
    ||| c == '-'
    ||| c == '_'
}

/// Every character a mod name may hold, written out one by one: the lower
/// case letters, the upper case letters, the digits, hyphen and underscore.
pub open spec fn mod_name_alphabet() -> Seq<char> {
    seq![
        'a', 'b', 'c', 'd', 'e', 'f', 'g', 'h', 'i', 'j', 'k', 'l', 'm',
        'n', 'o', 'p', 'q', 'r', 's', 't', 'u', 'v', 'w', 'x', 'y', 'z',
        'A', 'B', 'C', 'D', 'E', 'F', 'G', 'H', 'I', 'J', 'K', 'L', 'M',
        'N', 'O', 'P', 'Q', 'R', 'S', 'T', 'U', 'V', 'W', 'X', 'Y', 'Z',
        '0', '1', '2', '3', '4', '5', '6', '7', '8', '9', '-', '_',
    ]
}

/// The character class of mod names is exactly the written-out alphabet:
/// every ASCII letter, every digit, `-` and `_` is allowed, and nothing
/// else is.
pub proof fn lemma_mod_name_char_class(c: char)
    ensures
        is_mod_name_char(c) <==> mod_name_alphabet().contains(c),
{
    let a = mod_name_alphabet();
    assert(a.len() == 64);
    if is_mod_name_char(c) {
        let i: int = if 'a' <= c && c <= 'z' {
            c as int - 'a' as int
        } else if 'A' <= c && c <= 'Z' {
            26 + (c as int - 'A' as int)
        } else if '0' <= c && c <= '9' {
            52 + (c as int - '0' as int)
        } else if c == '-' {
            62
        } else {
            63
        };
        assert(a[i] == c);
    }
    if a.contains(c) {
        let i = choose|i: int| 0 <= i < a.len() && a[i] == c;
        assert(is_mod_name_char(a[i]));
    }
}

/// A valid mod name: one or more ASCII letters, digits, hyphens and
/// underscores, and nothing else.
pub fn mod_name(s: &str) -> (r: bool)
    ensures
        r == (s@.len() > 0 && forall|i: int| 0 <= i < s@.len() ==> is_mod_name_char(#[trigger] s@[i])),
        r == (s@.len() > 0 && forall|i: int| 0 <= i < s@.len() ==> mod_name_alphabet().contains(#[trigger] s@[i])),
{
    let mut all_valid = true;
    let mut any = false;
    for c in it: s.chars()
        invariant
            any == (it.index() > 0),
            it.seq() == s@,
            all_valid == forall|i: int| 0 <= i < it.index() ==> is_mod_name_char(#[trigger] s@[i]),
    {
        let valid = ('a' <= c && c <= 'z') || ('A' <= c && c <= 'Z') || ('0' <= c && c <= '9') || c == '-'
            || c == '_';
        all_valid = all_valid && valid;
        any = true;
    }
    proof {
        assert forall|i: int| 0 <= i < s@.len() implies (is_mod_name_char(#[trigger] s@[i])
            <==> mod_name_alphabet().contains(s@[i])) by {
            lemma_mod_name_char_class(s@[i]);
        }
    }
    any && all_valid
}

/// A hidden file or folder: its name starts with a dot.
pub fn is_hidden_name(name: &str) -> (r: bool)
    ensures
        r == (name@.len() > 0 && name@[0] == '.'),
{
    let mut chars = name.chars();
    match chars.next() {
        Some(c) => c == '.',
        None => false,
    }
}

} // verus!
