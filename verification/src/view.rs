//! What is shown of a control record: its present fields, each value cut to
//! a length.

use vstd::prelude::*;
use crate::control;
use crate::control::Control;
use vstd::string::StringExecFns;
use vstd::string::StringSliceAdditionalSpecFns;
use vstd::utf8::decode_utf8;
use vstd::utf8::encode_utf8;
use vstd::utf8::is_char_boundary;

verus! {

/// The length of a text in bytes, as `str::len` gives it.
pub open spec fn byte_len(s: Seq<char>) -> usize {
    encode_utf8(s).len() as usize
}

/// A text can be cut after `max_len` bytes where it is no longer than that,
/// or where a character begins there.
pub open spec fn can_cut(s: Seq<char>, max_len: usize) -> bool {
    byte_len(s) > max_len ==> is_char_boundary(encode_utf8(s), max_len as int)
}

/// A text cut to `max_len` bytes: the text itself where it is no longer, and
/// else its first `max_len` bytes followed by three dots.
pub open spec fn truncated(s: Seq<char>, max_len: usize) -> Seq<char> {
    if byte_len(s) > max_len {
        decode_utf8(encode_utf8(s).subrange(0, max_len as int)) + "..."@
    } else {
        s
    }
}

/// Decides whether a text can be cut after `max_len` bytes.
pub fn cuttable(s: &str, max_len: usize) -> (r: bool)
    ensures
        r == can_cut(s@, max_len),
{
    s.len() <= max_len || s.is_char_boundary(max_len)
}

/// Cuts a text to `max_len` bytes and marks the cut with three dots. The
/// cut must not fall inside a character.
pub fn truncate(s: &str, max_len: usize) -> (r: String)
    requires
        can_cut(s@, max_len),
    ensures
        r@ == truncated(s@, max_len),
{
    if s.len() > max_len {
        let (head, _) = s.split_at(max_len);
        proof {
            vstd::utf8::encode_utf8_decode_utf8(head@);
        }
        String::from_str(head).concat("...")
    } else {
        s.to_owned()
    }
}

/// The width to which the values of a table are cut.
pub const VALUE_WIDTH: usize = 50;

/// Every value of a list of pairs can be cut after `max_len` bytes.
pub open spec fn all_cuttable(pairs: Seq<(Seq<char>, Seq<char>)>, max_len: usize) -> bool {
    forall|i: int| 0 <= i < pairs.len() ==> can_cut((#[trigger] pairs[i]).1, max_len)
}

/// The rows of a table: each pair with its value cut to `max_len` bytes.
pub open spec fn rows_of(pairs: Seq<(Seq<char>, Seq<char>)>, max_len: usize) -> Seq<
    (Seq<char>, Seq<char>),
> {
    pairs.map_values(|p: (Seq<char>, Seq<char>)| (p.0, truncated(p.1, max_len)))
}

/// Makes the rows of a table from pairs of a name and a value, cutting each
/// value to `max_len` bytes. There is no table where a cut would fall
/// inside a character.
pub fn table_rows(pairs: &Vec<(String, String)>, max_len: usize) -> (r: Option<
    Vec<(String, String)>,
>)
    ensures
        match r {
            Some(rows) => all_cuttable(control::pairs_view(pairs@), max_len)
                && control::pairs_view(rows@) == rows_of(control::pairs_view(pairs@), max_len),
            None => !all_cuttable(control::pairs_view(pairs@), max_len),
        },
{
    let mut rows: Vec<(String, String)> = Vec::new();
    let mut i: usize = 0;
    let ghost all = control::pairs_view(pairs@);
    while i < pairs.len()
        invariant
            i <= pairs.len(),
            all == control::pairs_view(pairs@),
            rows.len() == i,
            forall|j: int| 0 <= j < i ==> can_cut((#[trigger] all[j]).1, max_len),
            forall|j: int|
                0 <= j < i ==> (#[trigger] rows@[j]).0@ == all[j].0 && rows@[j].1@ == truncated(
                    all[j].1,
                    max_len,
                ),
        decreases pairs.len() - i,
    {
        assert(all[i as int] == (pairs@[i as int].0@, pairs@[i as int].1@));
        if !cuttable(pairs[i].1.as_str(), max_len) {
            return None;
        }
        rows.push((pairs[i].0.clone(), truncate(pairs[i].1.as_str(), max_len)));
        i = i + 1;
    }
    assert(control::pairs_view(rows@) =~= rows_of(all, max_len));
    Some(rows)
}

/// The table shown of a control record: one row for each field that has a
/// value, in the order of the field table, with the name of the field and
/// its value cut to fifty bytes. A field without a value has no row.
pub fn view(ctrl: &Control) -> (r: Option<Vec<(String, String)>>)
    ensures
        match r {
            Some(rows) => all_cuttable(control::own_pairs(ctrl@), VALUE_WIDTH)
                && control::pairs_view(rows@) == rows_of(control::own_pairs(ctrl@), VALUE_WIDTH),
            None => !all_cuttable(control::own_pairs(ctrl@), VALUE_WIDTH),
        },
{
    let pairs = ctrl.pairs();
    table_rows(&pairs, VALUE_WIDTH)
}

/// The table shown of one row of the catalog: one row for each column that
/// holds text, with the name of the column and its value cut to fifty
/// bytes.
pub fn all(row: &Vec<(String, String)>) -> (r: Option<Vec<(String, String)>>)
    ensures
        match r {
            Some(rows) => all_cuttable(control::pairs_view(row@), VALUE_WIDTH)
                && control::pairs_view(rows@) == rows_of(control::pairs_view(row@), VALUE_WIDTH),
            None => !all_cuttable(control::pairs_view(row@), VALUE_WIDTH),
        },
{
    table_rows(row, VALUE_WIDTH)
}

} // verus!
