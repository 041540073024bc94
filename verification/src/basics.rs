//! Small verified functions over integers and strings: constants,
//! successor, ownership-transfer helpers, and a first-word extractor.

use vstd::prelude::*;

verus! {

/// A user record with a name, an e-mail address, an activity flag and a
/// sign-in counter.
#[derive(Debug, Clone, PartialEq, Eq)]
pub struct User {
    pub username: String,
    pub email: String,
    pub active: bool,
    pub sign_in_count: u64,
}

/// Returns the constant five.
pub fn five() -> (r: i32)
    ensures
        r == 5,
{
    5
}

/// Returns the successor of `x`.
pub fn plus_one(x: i32) -> (r: i32)
    requires
        x < i32::MAX,
    ensures
        r == x + 1,
{
    x + 1
}

/// Returns a freshly owned greeting string.
pub fn gives_ownership() -> (r: String)
    ensures
        r@ == "Hello"@,
{
    String::from_str("Hello")
}

/// Returns the length of `s`, counted in characters.
pub fn calculate_length(s: &String) -> (r: usize)
    ensures
        r == s@.len(),
{
    s.as_str().unicode_len()
}

/// Appends ", World" to `s`.
pub fn change(s: &mut String)
    ensures
        final(s)@ == old(s)@ + ", World"@,
{
    s.append(", World");
}

/// Returns an owned greeting string; unlike a borrowed local, an owned
/// value can be handed back to the caller.
pub fn no_dangle() -> (r: String)
    ensures
        r@ == "Hello"@,
{
    String::from_str("Hello")
}

/// The position of the first space at or after `i` in `s`, or the end
/// of `s` if no space follows.
pub open spec fn first_space(s: Seq<char>, i: int) -> int
    decreases s.len() - i when 0 <= i <= s.len()
{
    if i >= s.len() || s[i] == ' ' {
        i
    } else {
        first_space(s, i + 1)
    }
}

/// Returns the part of `s` before its first space, or all of `s` if it
/// has none.
pub fn first_word(s: &str) -> (r: &str)
    ensures
        r@ == s@.subrange(0, first_space(s@, 0)),
{
    let n = s.unicode_len();
    let mut i: usize = 0;
    while i < n && s.get_char(i) != ' '
        invariant
            i <= n,
            n == s@.len(),
            first_space(s@, 0) == first_space(s@, i as int),
        decreases n - i,
    {
        i = i + 1;
    }
    s.substring_char(0, i)
}

/// The position of the first line feed at or after `i` in `s`, or the
/// end of `s` if no line feed follows.
pub open spec fn first_newline(s: Seq<char>, i: int) -> int
    decreases s.len() - i when 0 <= i <= s.len()
{
    if i >= s.len() || s[i] == '\n' {
        i
    } else {
        first_newline(s, i + 1)
    }
}

/// The first line of `s`: what stands before the first line feed,
/// with a carriage return right before that line feed stripped.
pub open spec fn spec_first_line(s: Seq<char>) -> Seq<char> {
    let e = first_newline(s, 0);
    let raw = s.subrange(0, e);
    if e < s.len() && raw.len() > 0 && raw.last() == '\r' {
        raw.drop_last()
    } else {
        raw
    }
}

/// Returns the last character of the first line of `text`, if that
/// line has one: an empty text and an empty first line both yield
/// nothing.
pub fn last_char_of_first_line(text: &str) -> (r: Option<char>)
    ensures
        r == (if spec_first_line(text@).len() == 0 {
            Option::<char>::None
        } else {
            Option::Some(spec_first_line(text@).last())
        }),
{
    let n = text.unicode_len();
    let mut i: usize = 0;
    while i < n && text.get_char(i) != '\n'
        invariant
            i <= n,
            n == text@.len(),
            first_newline(text@, 0) == first_newline(text@, i as int),
        decreases n - i,
    {
        i = i + 1;
    }
    let end = if i < n && i > 0 && text.get_char(i - 1) == '\r' {
        i - 1
    } else {
        i
    };
    proof {
        let raw = text@.subrange(0, i as int);
        if i < n && raw.len() > 0 && raw.last() == '\r' {
            assert(spec_first_line(text@) =~= text@.subrange(0, end as int));
        } else {
            assert(spec_first_line(text@) =~= text@.subrange(0, end as int));
        }
    }
    if end == 0 {
        None
    } else {
        Some(text.get_char(end - 1))
    }
}

/// Builds a fresh, active [`User`] with a single sign-in.
pub fn build_user(username: String, email: String) -> (r: User)
    ensures
        r.username == username,
        r.email == email,
        r.active,
        r.sign_in_count == 1,
{
    User { username, email, active: true, sign_in_count: 1 }
}

} // verus!
