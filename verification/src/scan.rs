//! Reading text character by character.

use vstd::prelude::*;

use crate::text::text_chars;

verus! {

/// A pattern stands in a text at a position.
pub open spec fn occurs_at(text: Seq<char>, pattern: Seq<char>, i: int) -> bool {
    &&& 0 <= i
    &&& i + pattern.len() <= text.len()
    &&& text.subrange(i, i + pattern.len()) == pattern
}

/// A pattern stands somewhere in a text.
pub open spec fn occurs(text: Seq<char>, pattern: Seq<char>) -> bool {
    exists|i: int| occurs_at(text, pattern, i)
}

/// The first position of a pattern at or after `from`.
pub fn find_text(chars: &Vec<char>, pattern: &str, from: usize) -> (out: Option<usize>)
    requires
        from <= chars.len(),
    ensures
        match out {
            Some(i) => from <= i && occurs_at(chars@, pattern@, i as int) && forall|j: int|
                from <= j < i ==> !occurs_at(chars@, pattern@, j),
            None => forall|j: int| from <= j ==> !occurs_at(chars@, pattern@, j),
        },
{
    let wanted = text_chars(pattern);
    if wanted.len() > chars.len() {
        return None;
    }
    let end: usize = chars.len() - wanted.len();
    let mut i: usize = from;
    while i <= end
        invariant
            from <= i,
            wanted@ == pattern@,
            end + wanted.len() == chars.len(),
            forall|j: int| from <= j < i ==> !occurs_at(chars@, pattern@, j),
        decreases end + 1 - i,
    {
        let mut k: usize = 0;
        while k < wanted.len() && chars[i + k] == wanted[k]
            invariant
                i <= end,
                end + wanted.len() == chars.len(),
                k <= wanted.len(),
                forall|j: int| 0 <= j < k ==> chars@[i + j] == wanted@[j],
            decreases wanted.len() - k,
        {
            k = k + 1;
        }
        if k == wanted.len() {
            assert(chars@.subrange(i as int, i + wanted.len()) =~= wanted@);
            return Some(i);
        }
        assert(chars@.subrange(i as int, i + wanted.len())[k as int] != wanted@[k as int]);
        if i == end {
            assert forall|j: int| from <= j implies !occurs_at(chars@, pattern@, j) by {}
            return None;
        }
        i = i + 1;
    }
    None
}

/// Whether a pattern stands somewhere in a text.
pub fn contains_text(chars: &Vec<char>, pattern: &str) -> (out: bool)
    ensures
        out == occurs(chars@, pattern@),
{
    match find_text(chars, pattern, 0) {
        Some(i) => {
            assert(occurs_at(chars@, pattern@, i as int));
            true
        },
        None => {
            assert forall|j: int| !occurs_at(chars@, pattern@, j) by {}
            false
        },
    }
}

/// Whether a pattern stands at the start of the rest of a text.
pub fn stands_at(chars: &Vec<char>, pattern: &Vec<char>, from: usize) -> (out: bool)
    requires
        from <= chars.len(),
    ensures
        out == occurs_at(chars@.skip(from as int), pattern@, 0),
{
    let ghost rest = chars@.skip(from as int);
    if pattern.len() > chars.len() - from {
        return false;
    }
    let mut k: usize = 0;
    while k < pattern.len()
        invariant
            from <= chars.len(),
            rest == chars@.skip(from as int),
            pattern.len() <= chars.len() - from,
            k <= pattern.len(),
            forall|j: int| 0 <= j < k ==> rest[j] == pattern@[j],
        decreases pattern.len() - k,
    {
        assert(rest[k as int] == chars@[from + k]);
        if chars[from + k] != pattern[k] {
            assert(rest.subrange(0, pattern@.len() as int)[k as int] != pattern@[k as int]);
            return false;
        }
        k = k + 1;
    }
    assert(rest.subrange(0, pattern@.len() as int) =~= pattern@);
    true
}

/// Where a scan stands: outside of strings and comments, or inside one.
#[derive(Clone, Copy, PartialEq, Eq, Structural, Debug)]
pub enum Lex {
    Code,
    Text,
    Comment,
}

/// How many characters the next lexical step takes, and where it leads. In a string a
/// doubled apostrophe is one step.
pub open spec fn lex_step(s: Seq<char>, state: Lex) -> (int, Lex) {
    match state {
        Lex::Comment => if s.len() >= 2 && s[0] == '*' && s[1] == '/' {
            (2, Lex::Code)
        } else {
            (1, Lex::Comment)
        },
        Lex::Text => if s[0] != '\'' {
            (1, Lex::Text)
        } else if s.len() >= 2 && s[1] == '\'' {
            (2, Lex::Text)
        } else {
            (1, Lex::Code)
        },
        Lex::Code => if s.len() >= 2 && s[0] == '/' && s[1] == '*' {
            (2, Lex::Comment)
        } else if s[0] == '\'' {
            (1, Lex::Text)
        } else {
            (1, Lex::Code)
        },
    }
}

/// Makes one lexical step from a position.
pub fn next_step(chars: &Vec<char>, i: usize, state: Lex) -> (out: (usize, Lex))
    requires
        i < chars.len(),
    ensures
        (out.0 as int, out.1) == lex_step(chars@.skip(i as int), state),
        1 <= out.0,
        i + out.0 <= chars.len(),
{
    let ghost rest = chars@.skip(i as int);
    assert(rest[0] == chars@[i as int]);
    let two = i + 1 < chars.len();
    if two {
        assert(rest[1] == chars@[i + 1]);
    }
    match state {
        Lex::Comment => if two && chars[i] == '*' && chars[i + 1] == '/' {
            (2, Lex::Code)
        } else {
            (1, Lex::Comment)
        },
        Lex::Text => if chars[i] != '\'' {
            (1, Lex::Text)
        } else if two && chars[i + 1] == '\'' {
            (2, Lex::Text)
        } else {
            (1, Lex::Code)
        },
        Lex::Code => if two && chars[i] == '/' && chars[i + 1] == '*' {
            (2, Lex::Comment)
        } else if chars[i] == '\'' {
            (1, Lex::Text)
        } else {
            (1, Lex::Code)
        },
    }
}

} // verus!
