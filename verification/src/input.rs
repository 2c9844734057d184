//! What the argument of the removal command names: an id of the catalog, a
//! package file, or a package by its name.

use vstd::prelude::*;
use crate::text;

verus! {

/// What is to be removed.
#[derive(Clone, Debug)]
pub enum UninstallInput {
    /// The package in the file at this path.
    Path(String),
    /// The package of this name.
    PackageName(String),
    /// The row of the catalog with this id.
    Id(usize),
}

/// A decimal digit.
pub open spec fn is_digit(c: char) -> bool {
    '0' <= c <= '9'
}

/// The number that a text of digits stands for.
pub open spec fn digits_value(s: Seq<char>) -> nat
    decreases s.len(),
{
    if s.len() == 0 {
        0
    } else {
        (digits_value(s.drop_last()) * 10 + (s.last() as int - 48)) as nat
    }
}

/// The text without a plus sign at its start.
pub open spec fn unsigned(s: Seq<char>) -> Seq<char> {
    if s.len() > 0 && s[0] == '+' {
        s.drop_first()
    } else {
        s
    }
}

/// The id that a text stands for: decimal digits, at least one, after at
/// most one plus sign, where the number fits a `usize`.
pub open spec fn id_of(s: Seq<char>) -> Option<usize> {
    let d = unsigned(s);
    if d.len() > 0 && (forall|i: int| 0 <= i < d.len() ==> is_digit(#[trigger] d[i]))
        && digits_value(d) <= usize::MAX {
        Some(digits_value(d) as usize)
    } else {
        None
    }
}

/// A longer text of digits stands for no smaller number.
pub proof fn lemma_digits_grow(s: Seq<char>, n: int)
    requires
        0 <= n <= s.len(),
        forall|i: int| 0 <= i < s.len() ==> is_digit(#[trigger] s[i]),
    ensures
        digits_value(s.take(n)) <= digits_value(s),
    decreases s.len() - n,
{
    if n < s.len() {
        lemma_digits_grow(s, n + 1);
        assert(s.take(n + 1).drop_last() =~= s.take(n));
        assert(is_digit(s[n]));
        assert(s.take(n + 1).last() == s[n]);
    } else {
        assert(s.take(n) =~= s);
    }
}

/// Reads an id.
pub fn parse_id(s: &str) -> (r: Option<usize>)
    ensures
        r == id_of(s@),
{
    let v = text::chars_of(s);
    let start: usize = if v.len() > 0 && v[0] == '+' {
        1
    } else {
        0
    };
    let ghost d = unsigned(v@);
    assert(d =~= v@.subrange(start as int, v.len() as int));
    if start == v.len() {
        return None;
    }
    let mut value: usize = 0;
    let mut i: usize = start;
    assert(d.take(0) =~= Seq::<char>::empty());
    while i < v.len()
        invariant
            start <= i <= v.len(),
            start <= 1,
            v@ == s@,
            d == unsigned(v@),
            d == v@.subrange(start as int, v.len() as int),
            forall|j: int| 0 <= j < i - start ==> is_digit(#[trigger] d[j]),
            value == digits_value(d.take(i - start)),
        decreases v.len() - i,
    {
        let c = v[i];
        assert(d[i - start] == c);
        if !('0' <= c && c <= '9') {
            return None;
        }
        let digit = (c as u32 - 48) as usize;
        assert(d.take(i - start + 1).drop_last() =~= d.take(i - start));
        assert(d.take(i - start + 1).last() == c);
        if value > (usize::MAX - digit) / 10 {
            proof {
                assert(digits_value(d.take(i - start + 1)) > usize::MAX);
                if forall|j: int| 0 <= j < d.len() ==> is_digit(#[trigger] d[j]) {
                    lemma_digits_grow(d, i - start + 1);
                }
            }
            return None;
        }
        value = value * 10 + digit;
        i = i + 1;
    }
    assert(d.take(d.len() as int) =~= d);
    Some(value)
}

impl UninstallInput {
    /// What an argument names: an id where it reads as one; else a package
    /// file where it ends in `.deb`; else a package by its name.
    pub open spec fn names(self, arg: Seq<char>) -> bool {
        match self {
            UninstallInput::Id(id) => id_of(arg) == Some(id),
            UninstallInput::Path(path) => id_of(arg) is None && text::ends_with(arg, ".deb"@)
                && path@ == arg,
            UninstallInput::PackageName(name) => id_of(arg) is None && !text::ends_with(
                arg,
                ".deb"@,
            ) && name@ == arg,
        }
    }

    /// Reads the argument of the removal command.
    pub fn parse(arg: &str) -> (r: UninstallInput)
        ensures
            r.names(arg@),
    {
        match parse_id(arg) {
            Some(id) => UninstallInput::Id(id),
            None => {
                let v = text::chars_of(arg);
                assert(v@.subrange(0, v.len() as int) == v@);
                if text::has_suffix(&v, 0, v.len(), ".deb") {
                    UninstallInput::Path(arg.to_owned())
                } else {
                    UninstallInput::PackageName(arg.to_owned())
                }
            },
        }
    }
}

impl std::str::FromStr for UninstallInput {
    type Err = String;

    /// Reads the argument of the removal command. Every argument names
    /// something, so reading never fails.
    fn from_str(s: &str) -> (r: Result<Self, Self::Err>)
        ensures
            match r {
                Ok(input) => input.names(s@),
                Err(_) => false,
            },
    {
        Ok(UninstallInput::parse(s))
    }
}

} // verus!
