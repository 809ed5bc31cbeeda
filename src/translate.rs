use vstd::prelude::*;

verus! {

/// Whether a character is an ASCII capital letter.
pub open spec fn is_upper(c: char) -> bool {
    'A' <= c && c <= 'Z'
}

/// The lower-case letter for an ASCII capital letter.
pub open spec fn to_lower(c: char) -> char {
    ((c as u32) + 32) as char
}

/// What one character becomes: a capital letter is lowered and, unless it is
/// the first character, preceded by an underscore; anything else is kept.
pub open spec fn snake_piece(c: char, first: bool) -> Seq<char> {
    if is_upper(c) {
        if first {
            seq![to_lower(c)]
        } else {
            seq!['_', to_lower(c)]
        }
    } else {
        seq![c]
    }
}

/// The snake-case form of a camel-case or title-case name.
pub open spec fn snake_case(s: Seq<char>) -> Seq<char>
    decreases s.len(),
{
    if s.len() == 0 {
        Seq::empty()
    } else {
        snake_case(s.drop_last()) + snake_piece(s.last(), s.len() == 1)
    }
}

/// Relies on `FromIterator<char>` for `String`: the string holds the
/// characters in order.
#[verifier::external_body]
fn string_of_chars(chars: Vec<char>) -> (r: String)
    ensures
        r@ == chars@,
{
    String::from_iter(chars)
}

/// Converts a camel-case or title-case name to snake case: each ASCII capital
/// letter is lowered and, unless it starts the name, preceded by `_`.
pub fn translate(s: &str) -> (r: String)
    ensures
        r@ == snake_case(s@),
{
    let mut result: Vec<char> = Vec::new();
    let mut first: bool = true;
    for c in it: s.chars()
        invariant
            it.seq() == s@,
            first == (it.index() == 0),
            result@ == snake_case(s@.take(it.index() as int)),
    {
        proof {
            assert(s@.take(it.index() + 1).drop_last() == s@.take(it.index() as int));
        }
        if c >= 'A' && c <= 'Z' {
            if !first {
                result.push('_');
            }
            let lower = ((c as u8) + 32) as char;
            result.push(lower);
        } else {
            result.push(c);
        }
        first = false;
    }
    proof {
        assert(s@.take(s@.len() as int) == s@);
    }
    string_of_chars(result)
}

} // verus!
