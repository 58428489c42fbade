//! File names for books.
use vstd::prelude::*;
use crate::text::chars_of;

verus! {

/// ASCII letters and digits.
pub open spec fn is_ascii_alnum(c: char) -> bool {
    ('a' <= c <= 'z') || ('A' <= c <= 'Z') || ('0' <= c <= '9')
}

/// The lower case of an ASCII letter; any other character unchanged.
pub open spec fn ascii_lower(c: char) -> char {
    if 'A' <= c <= 'Z' {
        ((c as u32) + 32) as char
    } else {
        c
    }
}

/// The slug of `s` so far, and whether a separator is pending: letters and
/// digits are kept in lower case, and each run of other characters between
/// two of them becomes one `-`.
pub open spec fn slug_state(s: Seq<char>) -> (Seq<char>, bool)
    decreases s.len(),
{
    if s.len() == 0 {
        (Seq::empty(), false)
    } else {
        let (out, pending) = slug_state(s.drop_last());
        let c = s.last();
        if is_ascii_alnum(c) {
            let out = if pending && out.len() > 0 {
                out.push('-')
            } else {
                out
            };
            (out.push(ascii_lower(c)), false)
        } else {
            (out, true)
        }
    }
}

/// The slug of a title: lower case letters and digits, words joined by `-`.
pub open spec fn spec_slugify(s: Seq<char>) -> Seq<char> {
    slug_state(s).0
}

fn alnum(c: char) -> (out: bool)
    ensures
        out == is_ascii_alnum(c),
{
    ('a' <= c && c <= 'z') || ('A' <= c && c <= 'Z') || ('0' <= c && c <= '9')
}

fn lower(c: char) -> (out: char)
    ensures
        out == ascii_lower(c),
{
    if 'A' <= c && c <= 'Z' {
        match c {
            'A' => 'a',
            'B' => 'b',
            'C' => 'c',
            'D' => 'd',
            'E' => 'e',
            'F' => 'f',
            'G' => 'g',
            'H' => 'h',
            'I' => 'i',
            'J' => 'j',
            'K' => 'k',
            'L' => 'l',
            'M' => 'm',
            'N' => 'n',
            'O' => 'o',
            'P' => 'p',
            'Q' => 'q',
            'R' => 'r',
            'S' => 's',
            'T' => 't',
            'U' => 'u',
            'V' => 'v',
            'W' => 'w',
            'X' => 'x',
            'Y' => 'y',
            _ => 'z',
        }
    } else {
        c
    }
}

/// Turns a title into a name fit for a file.
pub fn slugify(s: &str) -> (out: String)
    ensures
        out@ == spec_slugify(s@),
{
    let chars = chars_of(s);
    let mut out = String::new();
    let mut pending = false;
    let mut started = false;
    let mut i: usize = 0;
    while i < chars.len()
        invariant
            i <= chars@.len(),
            chars@ == s@,
            (out@, pending) == slug_state(chars@.take(i as int)),
            started == (out@.len() > 0),
        decreases chars@.len() - i,
    {
        let c = chars[i];
        assert(chars@.take(i + 1).drop_last() == chars@.take(i as int));
        if alnum(c) {
            if pending && started {
                out.push('-');
            }
            out.push(lower(c));
            pending = false;
            started = true;
        } else {
            pending = true;
        }
        i += 1;
    }
    assert(chars@.take(i as int) == chars@);
    out
}

/// A slug holds only lower case letters, digits and `-`, and neither starts
/// nor ends with `-`.
pub proof fn lemma_slug_charset(s: Seq<char>)
    ensures
        forall|i: int|
            0 <= i < spec_slugify(s).len() ==> {
                let c = #[trigger] spec_slugify(s)[i];
                ('a' <= c <= 'z') || ('0' <= c <= '9') || c == '-'
            },
        spec_slugify(s).len() > 0 ==> spec_slugify(s)[0] != '-' && spec_slugify(s).last() != '-',
    decreases s.len(),
{
    if s.len() > 0 {
        lemma_slug_charset(s.drop_last());
    }
}

/// The ASCII letters and digits of a text, in order, letters in lower case.
pub open spec fn letters_and_digits_lowered(s: Seq<char>) -> Seq<char>
    decreases s.len(),
{
    if s.len() == 0 {
        Seq::empty()
    } else {
        let rest = letters_and_digits_lowered(s.drop_last());
        let u = s.last() as u32;
        if (0x61 <= u <= 0x7a) || (0x30 <= u <= 0x39) {
            rest.push(s.last())
        } else if 0x41 <= u <= 0x5a {
            rest.push((u + 0x20) as char)
        } else {
            rest
        }
    }
}

/// A text with its dashes left out.
pub open spec fn without_dashes(s: Seq<char>) -> Seq<char>
    decreases s.len(),
{
    if s.len() == 0 {
        Seq::empty()
    } else if s.last() == '-' {
        without_dashes(s.drop_last())
    } else {
        without_dashes(s.drop_last()).push(s.last())
    }
}

/// A slug keeps every ASCII letter and digit of the title, in order and in
/// lower case, and nothing else but dashes.
pub proof fn lemma_slug_keeps_letters_and_digits(s: Seq<char>)
    ensures
        without_dashes(spec_slugify(s)) == letters_and_digits_lowered(s),
    decreases s.len(),
{
    if s.len() > 0 {
        let front = s.drop_last();
        lemma_slug_keeps_letters_and_digits(front);
        let (out, pending) = slug_state(front);
        let c = s.last();
        if is_ascii_alnum(c) {
            let base = if pending && out.len() > 0 {
                out.push('-')
            } else {
                out
            };
            assert(without_dashes(base) == without_dashes(out)) by {
                if pending && out.len() > 0 {
                    assert(out.push('-').drop_last() == out);
                }
            }
            assert(base.push(ascii_lower(c)).drop_last() == base);
            assert(ascii_lower(c) != '-');
        }
    }
}

} // verus!
