use vstd::prelude::*;

verus! {

/// The longest display name, in characters.
pub const MAX_NAME_LEN: usize = 15;

/// The censored form of a text, as rustrict's censor gives it.
pub uninterp spec fn censored(s: Seq<char>) -> Seq<char>;

/// An ASCII letter.
pub open spec fn is_letter(c: char) -> bool {
    ('a' <= c && c <= 'z') || ('A' <= c && c <= 'Z')
}

/// The ASCII letters of `s`, in order.
pub open spec fn letters(s: Seq<char>) -> Seq<char>
    decreases s.len(),
{
    if s.len() == 0 {
        Seq::empty()
    } else if is_letter(s.last()) {
        letters(s.drop_last()).push(s.last())
    } else {
        letters(s.drop_last())
    }
}

/// `s` cut to at most `n` characters.
pub open spec fn at_most(s: Seq<char>, n: nat) -> Seq<char> {
    if s.len() > n {
        s.take(n as int)
    } else {
        s
    }
}

/// What is kept of a requested name before censoring: its first
/// `MAX_NAME_LEN` ASCII letters.
pub open spec fn kept_name(s: Seq<char>) -> Seq<char> {
    at_most(letters(s), MAX_NAME_LEN as nat)
}

pub fn is_ascii_letter(c: char) -> (r: bool)
    ensures
        r == is_letter(c),
{
    ('a' <= c && c <= 'z') || ('A' <= c && c <= 'Z')
}

/// The first `MAX_NAME_LEN` ASCII letters of `raw`.
pub fn clean_name(raw: &str) -> (r: Vec<char>)
    ensures
        r@ == kept_name(raw@),
{
    let mut kept: Vec<char> = Vec::new();
    let ghost mut seen: Seq<char> = Seq::empty();
    proof {
        vstd::string::axiom_spec_iter(raw);
    }
    for c in it: raw.chars()
        invariant
            it.seq() == raw@,
            seen == it.seq().take(it.index() as int),
            kept@ == at_most(letters(seen), MAX_NAME_LEN as nat),
    {
        proof {
            assert(it.seq().take(it.index() + 1) == seen.push(c));
        }
        if kept.len() < MAX_NAME_LEN && is_ascii_letter(c) {
            kept.push(c);
        }
        proof {
            let next = seen.push(c);
            assert(next.drop_last() =~= seen);
            if is_letter(c) && letters(seen).len() >= MAX_NAME_LEN {
                assert(letters(next).take(MAX_NAME_LEN as int) =~= letters(seen).take(MAX_NAME_LEN as int));
            }
            seen = next;
        }
    }
    proof {
        assert(seen =~= raw@);
    }
    kept
}

/// Relies on rustrict's `CensorIter::censor`: the censored text depends on
/// the characters alone.
#[verifier::external_body]
pub(crate) fn censor(chars: &Vec<char>) -> (r: String)
    ensures
        r@ == censored(chars@),
{
    rustrict::CensorIter::censor(chars.iter().copied()).collect::<String>()
}

} // verus!
