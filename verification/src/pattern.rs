//! Search patterns in their normal form.

use vstd::prelude::*;

verus! {

/// Whether `c` separates words: a dot, an underscore or a space.
pub open spec fn is_delimiter(c: char) -> bool {
    c == '.' || c == '_' || c == ' '
}

/// The stronger of the delimiter `c` and the delimiter `pending` that came
/// before it, if one did: a dot beats an underscore, which beats a space.
pub open spec fn stronger(pending: Option<char>, c: char) -> Option<char> {
    if c == '.' {
        Some('.')
    } else if c == '_' {
        if pending == Some('.') {
            pending
        } else {
            Some('_')
        }
    } else if pending is None {
        Some(' ')
    } else {
        pending
    }
}

/// `c` in lower case where it is an upper-case ASCII letter, else `c`.
pub open spec fn lower(c: char) -> char {
    if 'A' <= c && c <= 'Z' {
        ((c as u8) + 32) as char
    } else {
        c
    }
}

/// The delimiter that waits to be written, as a sequence.
pub open spec fn flushed(pending: Option<char>) -> Seq<char> {
    match pending {
        Some(d) => seq![d],
        None => Seq::empty(),
    }
}

/// The normal form of `s` where the delimiter `pending`, if any, came just
/// before it.
pub open spec fn normalized_from(s: Seq<char>, pending: Option<char>) -> Seq<char>
    decreases s.len(),
{
    if s.len() == 0 {
        flushed(pending)
    } else if is_delimiter(s[0]) {
        normalized_from(s.drop_first(), stronger(pending, s[0]))
    } else {
        flushed(pending) + seq![lower(s[0])] + normalized_from(s.drop_first(), None)
    }
}

/// The normal form of a pattern: each run of delimiters is one delimiter,
/// the strongest of the run, and every other character is in lower case.
pub open spec fn normalized(s: Seq<char>) -> Seq<char> {
    normalized_from(s, None)
}

/// `c` in lower case where it is an upper-case ASCII letter, else `c`.
pub fn to_lower(c: char) -> (r: char)
    ensures
        r == lower(c),
{
    if 'A' <= c && c <= 'Z' {
        ((c as u8) + 32u8) as char
    } else {
        c
    }
}

/// Brings a search pattern into its normal form.
pub fn normalize_pattern(pattern: &Vec<char>) -> (r: Vec<char>)
    ensures
        r@ == normalized(pattern@),
{
    let mut out: Vec<char> = Vec::new();
    let mut delimiter: Option<char> = None;
    let mut i: usize = 0;
    proof {
        assert(pattern@.skip(0) =~= pattern@);
    }
    while i < pattern.len()
        invariant
            0 <= i <= pattern@.len(),
            out@ + normalized_from(pattern@.skip(i as int), delimiter) == normalized(pattern@),
        decreases pattern@.len() - i,
    {
        let c = pattern[i];
        let ghost rest = pattern@.skip(i as int);
        proof {
            assert(rest[0] == c);
            assert(rest.drop_first() =~= pattern@.skip(i + 1));
        }
        if c == '.' {
            delimiter = Some('.');
        } else if c == '_' {
            if delimiter != Some('.') {
                delimiter = Some('_');
            }
        } else if c == ' ' {
            if delimiter.is_none() {
                delimiter = Some(' ');
            }
        } else {
            let ghost before = out@;
            let ghost waiting = delimiter;
            if let Some(d) = delimiter {
                out.push(d);
            }
            delimiter = None;
            out.push(to_lower(c));
            proof {
                assert(out@ =~= before + flushed(waiting) + seq![lower(c)]);
                assert(out@ + normalized_from(pattern@.skip(i + 1), None) =~= before + (flushed(
                    waiting,
                ) + seq![lower(c)] + normalized_from(pattern@.skip(i + 1), None)));
            }
        }
        i += 1;
    }
    proof {
        assert(pattern@.skip(i as int).len() == 0);
    }
    if let Some(d) = delimiter {
        out.push(d);
    }
    proof {
        assert(out@ =~= out@ + Seq::<char>::empty());
    }
    out
}

} // verus!
