use vstd::prelude::*;

use crate::text::{chars_of, push_char, push_str};

verus! {

pub open spec fn is_ascii_upper(c: char) -> bool {
    'A' <= c && c <= 'Z'
}

/// `c` in upper case, where it is an ASCII lower-case letter; else `c`.
pub open spec fn ascii_upper(c: char) -> char {
    if 'a' <= c && c <= 'z' {
        ((c as u32) - 32) as char
    } else {
        c
    }
}

/// The C-style name of a variant: the prefix, then the identifier in upper
/// case with `_` before each letter that was upper case.
/// (`TOKEN` and `LeftParen` give `TOKEN_LEFT_PAREN`.)
pub open spec fn c_style_name(prefix: Seq<char>, ident: Seq<char>) -> Seq<char>
    decreases ident.len(),
{
    if ident.len() == 0 {
        prefix
    } else {
        let c = ident.last();
        c_style_name(prefix, ident.drop_last()) + if is_ascii_upper(c) {
            seq!['_', ascii_upper(c)]
        } else {
            seq![ascii_upper(c)]
        }
    }
}

fn to_ascii_upper(c: char) -> (u: char)
    ensures
        u == ascii_upper(c),
{
    if 'a' <= c && c <= 'z' {
        let code = (c as u8) - 32;
        code as char
    } else {
        c
    }
}

/// The C-style name of a variant (see `c_style_name`).
pub fn c_style(prefix: &str, ident: &str) -> (name: String)
    ensures
        name@ == c_style_name(prefix@, ident@),
{
    let mut name = String::new();
    push_str(&mut name, prefix);
    let chars = chars_of(ident);
    let mut i: usize = 0;
    proof {
        assert(ident@.take(0) =~= Seq::<char>::empty());
    }
    while i < chars.len()
        invariant
            i <= chars@.len(),
            chars@ == ident@,
            name@ == c_style_name(prefix@, ident@.take(i as int)),
        decreases chars@.len() - i,
    {
        let c = chars[i];
        if 'A' <= c && c <= 'Z' {
            push_char(&mut name, '_');
        }
        push_char(&mut name, to_ascii_upper(c));
        i = i + 1;
        proof {
            assert(ident@.take(i as int).drop_last() =~= ident@.take(i - 1));
            assert(name@ =~= c_style_name(prefix@, ident@.take(i as int)));
        }
    }
    proof {
        assert(ident@.take(i as int) =~= ident@);
    }
    name
}

} // verus!
