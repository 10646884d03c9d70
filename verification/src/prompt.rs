//! Reading the answer to a question put to the user: the line as typed, a
//! default where nothing was typed, and what counts as a yes.

use vstd::prelude::*;

verus! {

/// What `str::trim` leaves of a string: the string without the white space
/// at its start and at its end.
pub uninterp spec fn trimmed(s: Seq<char>) -> Seq<char>;

/// What `str::to_lowercase` makes of a string: its lower-case form.
pub uninterp spec fn lowercased(s: Seq<char>) -> Seq<char>;

/// Calls `str::trim`.
///
/// Believed, not proved: what comes back depends on the string alone.
#[verifier::external_body]
fn trim(s: &str) -> (r: &str)
    ensures
        r@ == trimmed(s@),
{
    s.trim()
}

/// Calls `str::to_lowercase`.
///
/// Believed, not proved: what comes back depends on the string alone.
#[verifier::external_body]
fn to_lowercase(s: &str) -> (r: String)
    ensures
        r@ == lowercased(s@),
{
    s.to_lowercase()
}

/// The answer that a trimmed line gives: the line, or `default_value` where
/// the line is empty.
pub open spec fn settled(line: Seq<char>, default_value: Seq<char>) -> Seq<char> {
    if line.len() == 0 {
        default_value
    } else {
        line
    }
}

/// The word is `y` or `yes`.
pub open spec fn says_yes(word: Seq<char>) -> bool {
    word == seq!['y'] || word == seq!['y', 'e', 's']
}

/// Settles the answer of a line that has been trimmed already.
pub fn settle(line: &str, default_value: &str) -> (r: String)
    ensures
        r@ == settled(line@, default_value@),
{
    if line.is_empty() {
        String::from_str(default_value)
    } else {
        String::from_str(line)
    }
}

/// The answer that the typed line gives: the line without the white space
/// around it, or `default_value` where nothing else was typed.
pub fn answer(line: &str, default_value: &str) -> (r: String)
    ensures
        r@ == settled(trimmed(line@), default_value@),
{
    settle(trim(line), default_value)
}

/// Tells whether a word, already trimmed and in lower case, is a yes.
pub fn is_yes(word: &str) -> (r: bool)
    ensures
        r == says_yes(word@),
{
    let n: usize = word.unicode_len();
    if n == 1 {
        let yes = word.get_char(0) == 'y';
        proof {
            if yes {
                assert(word@ =~= seq!['y']);
            } else {
                assert(seq!['y'][0] == 'y');
            }
        }
        yes
    } else if n == 3 {
        let yes = word.get_char(0) == 'y' && word.get_char(1) == 'e' && word.get_char(2) == 's';
        proof {
            if yes {
                assert(word@ =~= seq!['y', 'e', 's']);
            } else {
                assert(seq!['y', 'e', 's'][0] == 'y');
                assert(seq!['y', 'e', 's'][1] == 'e');
                assert(seq!['y', 'e', 's'][2] == 's');
            }
        }
        yes
    } else {
        proof {
            assert(seq!['y'].len() == 1);
            assert(seq!['y', 'e', 's'].len() == 3);
        }
        false
    }
}

/// Tells whether an answer asks for subdirectories to be scanned: it does
/// where, trimmed and in lower case, it is `y` or `yes`.
pub fn wants_subdirectories(answer: &str) -> (r: bool)
    ensures
        r == says_yes(lowercased(trimmed(answer@))),
{
    let lowered = to_lowercase(trim(answer));
    is_yes(lowered.as_str())
}

} // verus!
