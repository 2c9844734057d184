//! Writing a control record as a paragraph, and the proof that reading the
//! paragraph gives the record back.

use vstd::prelude::*;
use vstd::string::StringExecFns;
use crate::control::Control;
use crate::control;
use crate::control::field_name;
use crate::control::FIELD_COUNT;
use crate::text;

verus! {

/// A small letter or an underscore.
pub open spec fn is_small(c: char) -> bool {
    'a' <= c <= 'z' || c == '_'
}

/// From place `i` on, `s` holds small letters and underscores only.
pub open spec fn small_from(s: Seq<char>, i: int) -> bool
    decreases s.len() - i,
{
    i >= s.len() || (i >= 0 && is_small(s[i]) && small_from(s, i + 1))
}

/// A plain name is not empty and made of small letters and underscores.
pub open spec fn is_plain_name(s: Seq<char>) -> bool {
    s.len() > 0 && forall|j: int| 0 <= j < s.len() ==> is_small(#[trigger] s[j])
}

/// `small_from` speaks of every place from `i` on.
pub proof fn lemma_small(s: Seq<char>, i: int)
    requires
        0 <= i,
        small_from(s, i),
    ensures
        forall|j: int| i <= j < s.len() ==> is_small(#[trigger] s[j]),
    decreases s.len() - i,
{
    if i < s.len() {
        lemma_small(s, i + 1);
    }
}

/// The names of the field table are plain names.
pub proof fn lemma_names_plain()
    ensures
        forall|i: int| 0 <= i < FIELD_COUNT ==> is_plain_name(#[trigger] field_name(i)),
{
    assert(small_from(field_name(0), 0) && field_name(0).len() == 7) by {
        reveal_strlit("package");
        reveal_with_fuel(small_from, 9);
    }
    lemma_small(field_name(0), 0);
    assert(small_from(field_name(1), 0) && field_name(1).len() == 7) by {
        reveal_strlit("version");
        reveal_with_fuel(small_from, 9);
    }
    lemma_small(field_name(1), 0);
    assert(small_from(field_name(2), 0) && field_name(2).len() == 12) by {
        reveal_strlit("architecture");
        reveal_with_fuel(small_from, 14);
    }
    lemma_small(field_name(2), 0);
    assert(small_from(field_name(3), 0) && field_name(3).len() == 10) by {
        reveal_strlit("maintainer");
        reveal_with_fuel(small_from, 12);
    }
    lemma_small(field_name(3), 0);
    assert(small_from(field_name(4), 0) && field_name(4).len() == 11) by {
        reveal_strlit("description");
        reveal_with_fuel(small_from, 13);
    }
    lemma_small(field_name(4), 0);
    assert(small_from(field_name(5), 0) && field_name(5).len() == 7) by {
        reveal_strlit("depends");
        reveal_with_fuel(small_from, 9);
    }
    lemma_small(field_name(5), 0);
    assert(small_from(field_name(6), 0) && field_name(6).len() == 11) by {
        reveal_strlit("pre_depends");
        reveal_with_fuel(small_from, 13);
    }
    lemma_small(field_name(6), 0);
    assert(small_from(field_name(7), 0) && field_name(7).len() == 8) by {
        reveal_strlit("provides");
        reveal_with_fuel(small_from, 10);
    }
    lemma_small(field_name(7), 0);
    assert(small_from(field_name(8), 0) && field_name(8).len() == 7) by {
        reveal_strlit("section");
        reveal_with_fuel(small_from, 9);
    }
    lemma_small(field_name(8), 0);
    assert(small_from(field_name(9), 0) && field_name(9).len() == 8) by {
        reveal_strlit("priority");
        reveal_with_fuel(small_from, 10);
    }
    lemma_small(field_name(9), 0);
    assert(small_from(field_name(10), 0) && field_name(10).len() == 14) by {
        reveal_strlit("installed_size");
        reveal_with_fuel(small_from, 16);
    }
    lemma_small(field_name(10), 0);
    assert(small_from(field_name(11), 0) && field_name(11).len() == 10) by {
        reveal_strlit("recommends");
        reveal_with_fuel(small_from, 12);
    }
    lemma_small(field_name(11), 0);
    assert(small_from(field_name(12), 0) && field_name(12).len() == 8) by {
        reveal_strlit("suggests");
        reveal_with_fuel(small_from, 10);
    }
    lemma_small(field_name(12), 0);
    assert(small_from(field_name(13), 0) && field_name(13).len() == 8) by {
        reveal_strlit("enhances");
        reveal_with_fuel(small_from, 10);
    }
    lemma_small(field_name(13), 0);
    assert(small_from(field_name(14), 0) && field_name(14).len() == 6) by {
        reveal_strlit("breaks");
        reveal_with_fuel(small_from, 8);
    }
    lemma_small(field_name(14), 0);
    assert(small_from(field_name(15), 0) && field_name(15).len() == 9) by {
        reveal_strlit("conflicts");
        reveal_with_fuel(small_from, 11);
    }
    lemma_small(field_name(15), 0);
    assert(small_from(field_name(16), 0) && field_name(16).len() == 8) by {
        reveal_strlit("replaces");
        reveal_with_fuel(small_from, 10);
    }
    lemma_small(field_name(16), 0);
    assert(small_from(field_name(17), 0) && field_name(17).len() == 4) by {
        reveal_strlit("bugs");
        reveal_with_fuel(small_from, 6);
    }
    lemma_small(field_name(17), 0);
    assert(small_from(field_name(18), 0) && field_name(18).len() == 7) by {
        reveal_strlit("license");
        reveal_with_fuel(small_from, 9);
    }
    lemma_small(field_name(18), 0);
    assert(small_from(field_name(19), 0) && field_name(19).len() == 8) by {
        reveal_strlit("homepage");
        reveal_with_fuel(small_from, 10);
    }
    lemma_small(field_name(19), 0);
    assert(small_from(field_name(20), 0) && field_name(20).len() == 6) by {
        reveal_strlit("origin");
        reveal_with_fuel(small_from, 8);
    }
    lemma_small(field_name(20), 0);
}

/// No two fields of the table have the same name.
pub proof fn lemma_names_distinct()
    ensures
        forall|i: int, j: int|
            0 <= i < j < FIELD_COUNT ==> #[trigger] field_name(i) != #[trigger] field_name(j),
{
    reveal_strlit("package");
    reveal_strlit("version");
    reveal_strlit("architecture");
    reveal_strlit("maintainer");
    reveal_strlit("description");
    reveal_strlit("depends");
    reveal_strlit("pre_depends");
    reveal_strlit("provides");
    reveal_strlit("section");
    reveal_strlit("priority");
    reveal_strlit("installed_size");
    reveal_strlit("recommends");
    reveal_strlit("suggests");
    reveal_strlit("enhances");
    reveal_strlit("breaks");
    reveal_strlit("conflicts");
    reveal_strlit("replaces");
    reveal_strlit("bugs");
    reveal_strlit("license");
    reveal_strlit("homepage");
    reveal_strlit("origin");
    assert forall|i: int, j: int| 0 <= i < j < FIELD_COUNT implies #[trigger] field_name(i)
        != #[trigger] field_name(j) by {
        let a = field_name(i);
        let b = field_name(j);
        if a == b {
            assert(a.len() == b.len());
            assert(a[0] == b[0]);
            assert(a[1] == b[1]);
            assert(a[2] == b[2]);
        }
    }
}

/// The canonical form of a plain name is the name itself, and a plain name
/// is trimmed, holds no colon and no line feed, and opens no continuation
/// line.
pub proof fn lemma_plain_name(name: Seq<char>)
    requires
        is_plain_name(name),
    ensures
        control::canon(name) == name,
        text::trim(name) == name,
        !name.contains(':'),
        !name.contains('\n'),
        name[0] != ' ' && name[0] != '\t',
{
    assert(control::canon(name) =~= name);
    assert(text::is_trimmed(name));
    text::lemma_trim(name);
    if name.contains(':') {
        let j = choose|j: int| 0 <= j < name.len() && name[j] == ':';
        assert(is_small(name[j]));
    }
    if name.contains('\n') {
        let j = choose|j: int| 0 <= j < name.len() && name[j] == '\n';
        assert(is_small(name[j]));
    }
}

/// The values that the first `n` fields of a record give, and none for the
/// others.
pub open spec fn values_upto(values: Seq<Option<Seq<char>>>, n: int) -> Seq<Option<Seq<char>>> {
    Seq::new(
        FIELD_COUNT as nat,
        |i: int|
            if i < n {
                values[i]
            } else {
                None
            },
    )
}

/// Assigning the pairs of the first `n` fields gives the values of those
/// fields.
pub proof fn lemma_record_upto(values: Seq<Option<Seq<char>>>, n: int)
    requires
        values.len() == FIELD_COUNT,
        0 <= n <= FIELD_COUNT,
    ensures
        control::record_of(control::pairs_upto(values, n)) == values_upto(values, n),
    decreases n,
{
    if n == 0 {
        assert(control::record_of(control::pairs_upto(values, n)) =~= values_upto(values, n));
    } else {
        lemma_record_upto(values, n - 1);
        lemma_names_plain();
        lemma_names_distinct();
        lemma_plain_name(field_name(n - 1));
        let before = control::pairs_upto(values, n - 1);
        match values[n - 1] {
            Some(v) => {
                let pairs = control::pairs_upto(values, n);
                assert(pairs.drop_last() =~= before);
                assert(pairs.last() == (field_name(n - 1), v));
                assert forall|i: int| 0 <= i < FIELD_COUNT implies control::record_of(pairs)[i]
                    == values_upto(values, n)[i] by {
                    if i < n - 1 {
                        assert(field_name(i) != field_name(n - 1));
                    } else if i > n - 1 {
                        assert(field_name(n - 1) != field_name(i));
                    }
                }
                assert(control::record_of(pairs) =~= values_upto(values, n));
            },
            None => {
                assert(values_upto(values, n) =~= values_upto(values, n - 1));
            },
        }
    }
}

/// A record is what its own pairs give: writing the fields that have a
/// value under their names and reading them back changes nothing.
pub proof fn lemma_record_of_own_pairs(values: Seq<Option<Seq<char>>>)
    requires
        values.len() == FIELD_COUNT,
    ensures
        control::record_of(control::own_pairs(values)) == values,
{
    lemma_record_upto(values, FIELD_COUNT as int);
    assert(values_upto(values, FIELD_COUNT as int) =~= values);
}

/// The lines that write one field: its name, a colon, a space and the
/// first line of the value; then each further line of the value behind a
/// space.
pub open spec fn value_lines(key: Seq<char>, value: Seq<char>) -> Seq<Seq<char>> {
    let pieces = text::split_on(value, '\n');
    seq![key + seq![':', ' '] + pieces[0]] + pieces.drop_first().map_values(
        |p: Seq<char>| seq![' '] + p,
    )
}

/// The lines that write a list of pairs, one field after another.
pub open spec fn lines_for(pairs: Seq<(Seq<char>, Seq<char>)>) -> Seq<Seq<char>>
    decreases pairs.len(),
{
    if pairs.len() == 0 {
        seq![]
    } else {
        lines_for(pairs.drop_last()) + value_lines(pairs.last().0, pairs.last().1)
    }
}

/// The paragraph that writes a list of pairs.
pub open spec fn emitted(pairs: Seq<(Seq<char>, Seq<char>)>) -> Seq<char> {
    text::unlines(lines_for(pairs))
}

/// A value can be written and read back when each of its lines is trimmed.
pub open spec fn is_normal_value(value: Seq<char>) -> bool {
    forall|i: int|
        0 <= i < text::split_on(value, '\n').len() ==> text::is_trimmed(
            #[trigger] text::split_on(value, '\n')[i],
        )
}

/// A pair can be written and read back when its key is a plain name and its
/// value is normal.
pub open spec fn is_normal_pair(pair: (Seq<char>, Seq<char>)) -> bool {
    is_plain_name(pair.0) && is_normal_value(pair.1)
}

/// The pairs after the lines `lines`, starting from the pairs `acc`.
pub open spec fn take_lines(acc: Seq<(Seq<char>, Seq<char>)>, lines: Seq<Seq<char>>) -> Seq<
    (Seq<char>, Seq<char>),
>
    decreases lines.len(),
{
    if lines.len() == 0 {
        acc
    } else {
        control::take_line(take_lines(acc, lines.drop_last()), lines.last())
    }
}

/// The pairs of a paragraph are what its lines give from no pairs.
pub proof fn lemma_pairs_of_fold(lines: Seq<Seq<char>>)
    ensures
        control::pairs_of(lines) == take_lines(seq![], lines),
    decreases lines.len(),
{
    if lines.len() > 0 {
        lemma_pairs_of_fold(lines.drop_last());
    }
}

/// Lines can be taken in two parts.
pub proof fn lemma_take_lines_concat(
    acc: Seq<(Seq<char>, Seq<char>)>,
    a: Seq<Seq<char>>,
    b: Seq<Seq<char>>,
)
    ensures
        take_lines(acc, a + b) == take_lines(take_lines(acc, a), b),
    decreases b.len(),
{
    if b.len() == 0 {
        assert(a + b =~= a);
    } else {
        lemma_take_lines_concat(acc, a, b.drop_last());
        assert((a + b).drop_last() =~= a + b.drop_last());
        assert((a + b).last() == b.last());
    }
}

/// A trimmed text behind one space trims to itself.
pub proof fn lemma_trim_spaced(p: Seq<char>)
    requires
        text::is_trimmed(p),
    ensures
        text::trim(seq![' '] + p) == p,
{
    let line = seq![' '] + p;
    assert(line.drop_first() =~= p);
    assert(text::trim_start(line) == text::trim_start(p));
    text::lemma_trim(p);
    assert(text::trim_start(p) == p);
}

/// Joining one more item adds the separator and the item.
pub proof fn lemma_joined_push(items: Seq<Seq<char>>, sep: Seq<char>, item: Seq<char>)
    requires
        items.len() > 0,
    ensures
        text::joined(items.push(item), sep) == text::joined(items, sep) + sep + item,
    decreases items.len(),
{
    let all = items.push(item);
    assert(all.drop_first() =~= items.drop_first().push(item));
    if items.len() == 1 {
        assert(all.drop_first() =~= seq![item]);
        assert(text::joined(all.drop_first(), sep) == item);
    } else {
        lemma_joined_push(items.drop_first(), sep, item);
        assert(text::joined(all, sep) =~= text::joined(items, sep) + sep + item);
    }
}

/// The first `m` lines of a field give one pair: the key with the first `m`
/// lines of the value.
proof fn lemma_block_prefix(
    acc: Seq<(Seq<char>, Seq<char>)>,
    key: Seq<char>,
    value: Seq<char>,
    m: int,
)
    requires
        is_plain_name(key),
        is_normal_value(value),
        1 <= m <= text::split_on(value, '\n').len(),
    ensures
        take_lines(acc, value_lines(key, value).take(m)) == acc.push(
            (key, text::joined(text::split_on(value, '\n').take(m), seq!['\n'])),
        ),
    decreases m,
{
    let pieces = text::split_on(value, '\n');
    let lines = value_lines(key, value);
    lemma_plain_name(key);
    if m == 1 {
        let first = lines[0];
        assert(first == key + seq![':', ' '] + pieces[0]);
        assert(lines.take(1).drop_last() =~= Seq::<Seq<char>>::empty());
        assert(lines.take(1).last() == first);
        let k = key.len() as int;
        assert forall|i: int| 0 <= i < k implies #[trigger] first[i] != ':' by {
            assert(key.contains(first[i]));
        }
        text::lemma_first_index_is(first, ':', k);
        assert(first.take(k) =~= key);
        assert(first.skip(k + 1) =~= seq![' '] + pieces[0]);
        assert(text::is_trimmed(pieces[0]));
        lemma_trim_spaced(pieces[0]);
        assert(first[0] == key[0]);
        assert(!control::is_continuation(first));
        assert(pieces.take(1) =~= seq![pieces[0]]);
        assert(take_lines(acc, lines.take(1).drop_last()) == acc);
    } else {
        lemma_block_prefix(acc, key, value, m - 1);
        let line = lines[m - 1];
        assert(lines.take(m).drop_last() =~= lines.take(m - 1));
        assert(lines.take(m).last() == line);
        assert(line == seq![' '] + pieces[m - 1]);
        assert(line[0] == ' ');
        assert(text::is_trimmed(pieces[m - 1]));
        lemma_trim_spaced(pieces[m - 1]);
        let before = text::joined(pieces.take(m - 1), seq!['\n']);
        lemma_joined_push(pieces.take(m - 1), seq!['\n'], pieces[m - 1]);
        assert(pieces.take(m - 1).push(pieces[m - 1]) =~= pieces.take(m));
        let held = acc.push((key, before));
        assert(held.drop_last() =~= acc);
        assert(held.last() == (key, before));
    }
}

/// The lines of a field give one pair: its key with its value.
pub proof fn lemma_block(acc: Seq<(Seq<char>, Seq<char>)>, key: Seq<char>, value: Seq<char>)
    requires
        is_plain_name(key),
        is_normal_value(value),
    ensures
        take_lines(acc, value_lines(key, value)) == acc.push((key, value)),
{
    let pieces = text::split_on(value, '\n');
    let lines = value_lines(key, value);
    text::lemma_split_pieces(value, '\n');
    lemma_block_prefix(acc, key, value, pieces.len() as int);
    assert(lines.take(pieces.len() as int) =~= lines);
    assert(pieces.take(pieces.len() as int) =~= pieces);
    text::lemma_joined_split(value, '\n');
}

/// The lines that write normal pairs give those pairs.
pub proof fn lemma_lines_give_pairs(pairs: Seq<(Seq<char>, Seq<char>)>)
    requires
        forall|i: int| 0 <= i < pairs.len() ==> is_normal_pair(#[trigger] pairs[i]),
    ensures
        take_lines(seq![], lines_for(pairs)) == pairs,
    decreases pairs.len(),
{
    if pairs.len() > 0 {
        let init = pairs.drop_last();
        assert forall|i: int| 0 <= i < init.len() implies is_normal_pair(#[trigger] init[i]) by {
            assert(init[i] == pairs[i]);
        }
        lemma_lines_give_pairs(init);
        assert(is_normal_pair(pairs.last()));
        lemma_take_lines_concat(
            seq![],
            lines_for(init),
            value_lines(pairs.last().0, pairs.last().1),
        );
        lemma_block(init, pairs.last().0, pairs.last().1);
        assert(init.push(pairs.last()) =~= pairs);
    }
}

/// The lines that write a normal pair are not empty and stand as they are.
pub proof fn lemma_value_lines(key: Seq<char>, value: Seq<char>)
    requires
        is_plain_name(key),
        is_normal_value(value),
    ensures
        forall|i: int|
            0 <= i < value_lines(key, value).len() ==> (#[trigger] value_lines(key, value)[i]).len()
                > 0 && text::is_line(value_lines(key, value)[i]),
{
    let pieces = text::split_on(value, '\n');
    let lines = value_lines(key, value);
    text::lemma_split_pieces(value, '\n');
    lemma_plain_name(key);
    assert forall|i: int| 0 <= i < lines.len() implies (#[trigger] lines[i]).len() > 0
        && text::is_line(lines[i]) by {
        let piece = pieces[i];
        assert(text::is_trimmed(piece));
        assert(!piece.contains('\n'));
        let line = lines[i];
        let head = if i == 0 {
            key + seq![':', ' ']
        } else {
            seq![' ']
        };
        assert(line == head + piece);
        assert(head.last() == ' ');
        if line.contains('\n') {
            let j = choose|j: int| 0 <= j < line.len() && line[j] == '\n';
            if j < head.len() {
                if i == 0 && j < key.len() {
                    assert(key.contains(line[j]));
                }
            } else {
                assert(piece.contains(line[j]));
            }
        }
        if piece.len() > 0 {
            assert(line.last() == piece.last());
        } else {
            assert(line =~= head);
        }
    }
}

/// Every line that writes normal pairs is not empty and stands as it is.
pub proof fn lemma_lines_for(pairs: Seq<(Seq<char>, Seq<char>)>)
    requires
        forall|i: int| 0 <= i < pairs.len() ==> is_normal_pair(#[trigger] pairs[i]),
    ensures
        forall|i: int|
            0 <= i < lines_for(pairs).len() ==> (#[trigger] lines_for(pairs)[i]).len() > 0
                && text::is_line(lines_for(pairs)[i]),
    decreases pairs.len(),
{
    if pairs.len() > 0 {
        let init = pairs.drop_last();
        assert forall|i: int| 0 <= i < init.len() implies is_normal_pair(#[trigger] init[i]) by {
            assert(init[i] == pairs[i]);
        }
        lemma_lines_for(init);
        assert(is_normal_pair(pairs.last()));
        lemma_value_lines(pairs.last().0, pairs.last().1);
        let a = lines_for(init);
        let b = value_lines(pairs.last().0, pairs.last().1);
        assert forall|i: int| 0 <= i < lines_for(pairs).len() implies (#[trigger] lines_for(
            pairs,
        )[i]).len() > 0 && text::is_line(lines_for(pairs)[i]) by {
            if i < a.len() {
                assert(lines_for(pairs)[i] == a[i]);
            } else {
                assert(lines_for(pairs)[i] == b[i - a.len()]);
            }
        }
    }
}

/// Lines of which none is empty make one paragraph.
pub proof fn lemma_one_paragraph(lines: Seq<Seq<char>>)
    requires
        forall|i: int| 0 <= i < lines.len() ==> (#[trigger] lines[i]).len() > 0,
    ensures
        control::run_length(lines, true) == 0,
        control::run_length(lines, false) == lines.len(),
        control::first_paragraph(lines) == lines,
    decreases lines.len(),
{
    if lines.len() > 0 {
        let rest = lines.drop_first();
        assert forall|i: int| 0 <= i < rest.len() implies (#[trigger] rest[i]).len() > 0 by {
            assert(rest[i] == lines[i + 1]);
        }
        lemma_one_paragraph(rest);
    }
    assert(lines.skip(0) =~= lines);
    assert(lines.take(lines.len() as int) =~= lines);
}

/// Reading the paragraph that writes normal pairs gives what the pairs
/// give.
pub proof fn lemma_parse_emitted_pairs(pairs: Seq<(Seq<char>, Seq<char>)>)
    requires
        forall|i: int| 0 <= i < pairs.len() ==> is_normal_pair(#[trigger] pairs[i]),
    ensures
        control::parsed(emitted(pairs)) == control::record_of(pairs),
{
    let lines = lines_for(pairs);
    lemma_lines_for(pairs);
    text::lemma_lines_of_unlines(lines);
    lemma_one_paragraph(lines);
    lemma_pairs_of_fold(lines);
    lemma_lines_give_pairs(pairs);
}

/// A record can be written and read back when each line of each of its
/// values is trimmed.
pub open spec fn is_normal(values: Seq<Option<Seq<char>>>) -> bool {
    &&& values.len() == FIELD_COUNT
    &&& forall|i: int|
        0 <= i < FIELD_COUNT ==> match #[trigger] values[i] {
            Some(v) => is_normal_value(v),
            None => true,
        }
}

/// The pairs of a normal record are normal.
pub proof fn lemma_own_pairs_normal(values: Seq<Option<Seq<char>>>, n: int)
    requires
        is_normal(values),
        0 <= n <= FIELD_COUNT,
    ensures
        forall|i: int|
            0 <= i < control::pairs_upto(values, n).len() ==> is_normal_pair(
                #[trigger] control::pairs_upto(values, n)[i],
            ),
    decreases n,
{
    if n > 0 {
        lemma_own_pairs_normal(values, n - 1);
        lemma_names_plain();
        assert(is_plain_name(field_name(n - 1)));
        assert(match values[n - 1] {
            Some(v) => is_normal_value(v),
            None => true,
        });
        let before = control::pairs_upto(values, n - 1);
        let now = control::pairs_upto(values, n);
        assert forall|i: int| 0 <= i < now.len() implies is_normal_pair(#[trigger] now[i]) by {
            if i < before.len() {
                assert(now[i] == before[i]);
            }
        }
    }
}

/// Writing a record and reading the paragraph gives the record back, for
/// every record whose values have trimmed lines.
pub proof fn lemma_round_trip(values: Seq<Option<Seq<char>>>)
    requires
        is_normal(values),
    ensures
        control::parsed(emitted(control::own_pairs(values))) == values,
{
    lemma_own_pairs_normal(values, FIELD_COUNT as int);
    lemma_parse_emitted_pairs(control::own_pairs(values));
    lemma_record_of_own_pairs(values);
}

/// Writes pairs of a name and a value as a paragraph: for each pair the
/// name, a colon, a space and the first line of the value, then each further
/// line of the value behind a space.
pub fn emit_pairs(pairs: &Vec<(String, String)>) -> (r: String)
    ensures
        r@ == emitted(control::pairs_view(pairs@)),
{
    let mut r = String::new();
    let ghost all = control::pairs_view(pairs@);
    let mut i: usize = 0;
    assert(all.take(0) =~= Seq::<(Seq<char>, Seq<char>)>::empty());
    while i < pairs.len()
        invariant
            i <= pairs.len(),
            all == control::pairs_view(pairs@),
            r@ == text::unlines(lines_for(all.take(i as int))),
        decreases pairs.len() - i,
    {
        let ghost done = lines_for(all.take(i as int));
        let ghost key = pairs@[i as int].0@;
        let ghost value = pairs@[i as int].1@;
        let ghost block = value_lines(key, value);
        let v = text::chars_of(pairs[i].1.as_str());
        let pieces = text::split_bounds(&v, 0, v.len(), '\n');
        proof {
            assert(v@.subrange(0, v.len() as int) == v@);
            text::lemma_split_pieces(value, '\n');
            reveal_strlit(": ");
            assert(": "@ =~= seq![':', ' ']);
            assert(all.take(i + 1).drop_last() =~= all.take(i as int));
            assert(all.take(i + 1).last() == (key, value));
        }
        r.append(pairs[i].0.as_str());
        r.append(": ");
        text::append_chars(&mut r, &v, pieces[0].0, pieces[0].1);
        text::push_char(&mut r, '\n');
        proof {
            let first = block[0];
            assert(text::cut(v@, pieces@)[0] == v@.subrange(pieces@[0].0 as int, pieces@[0].1 as int));
            assert(r@ =~= text::unlines(done) + first + seq!['\n']);
            assert((done + block.take(1)).drop_last() =~= done);
            assert((done + block.take(1)).last() == first);
        }
        let mut j: usize = 1;
        while j < pieces.len()
            invariant
                1 <= j <= pieces.len(),
                text::bounds_within(pieces@, v.len() as nat),
                text::cut(v@, pieces@) == text::split_on(value, '\n'),
                block == value_lines(key, value),
                block.len() == pieces.len(),
                r@ == text::unlines(done + block.take(j as int)),
            decreases pieces.len() - j,
        {
            let ghost before = r@;
            text::push_char(&mut r, ' ');
            text::append_chars(&mut r, &v, pieces[j].0, pieces[j].1);
            text::push_char(&mut r, '\n');
            proof {
                let line = block[j as int];
                assert(text::cut(v@, pieces@)[j as int] == v@.subrange(
                    pieces@[j as int].0 as int,
                    pieces@[j as int].1 as int,
                ));
                assert(line == seq![' '] + text::split_on(value, '\n')[j as int]);
                assert(r@ =~= before + line + seq!['\n']);
                assert((done + block.take(j + 1)).drop_last() =~= done + block.take(j as int));
                assert((done + block.take(j + 1)).last() == line);
            }
            j = j + 1;
        }
        assert(block.take(pieces.len() as int) =~= block);
        i = i + 1;
    }
    assert(all.take(pairs.len() as int) =~= all);
    r
}

/// Writes a control record as a paragraph, the fields that have a value in
/// the order of the field table.
pub fn emit(ctrl: &Control) -> (r: String)
    ensures
        r@ == emitted(control::own_pairs(ctrl@)),
{
    let pairs = ctrl.pairs();
    emit_pairs(&pairs)
}

/// Every value of a list of pairs is normal.
pub open spec fn has_normal_values(pairs: Seq<(Seq<char>, Seq<char>)>) -> bool {
    forall|i: int| 0 <= i < pairs.len() ==> is_normal_value((#[trigger] pairs[i]).1)
}

/// What is trimmed out of a text without a line feed is a normal value.
pub proof fn lemma_trimmed_is_normal(s: Seq<char>)
    requires
        !s.contains('\n'),
    ensures
        is_normal_value(text::trim(s)),
{
    text::lemma_trim_holds(s, '\n');
    text::lemma_one_piece(text::trim(s), '\n');
    text::lemma_trim(s);
}

/// A line without a line feed leaves the values of the pairs normal.
pub proof fn lemma_take_line_normal(pairs: Seq<(Seq<char>, Seq<char>)>, line: Seq<char>)
    requires
        has_normal_values(pairs),
        !line.contains('\n'),
    ensures
        has_normal_values(control::take_line(pairs, line)),
{
    let new = control::take_line(pairs, line);
    let k = text::first_index(line, ':');
    text::lemma_first_index(line, ':');
    if control::is_continuation(line) {
        if pairs.len() > 0 {
            let t = text::trim(line);
            let v = pairs.last().1;
            lemma_trimmed_is_normal(line);
            text::lemma_trim_holds(line, '\n');
            text::lemma_one_piece(t, '\n');
            text::lemma_split_append(v, '\n', t);
            assert(is_normal_value(v));
            let grown = v + seq!['\n'] + t;
            assert(is_normal_value(grown)) by {
                let pieces = text::split_on(grown, '\n');
                assert forall|i: int| 0 <= i < pieces.len() implies text::is_trimmed(
                    #[trigger] pieces[i],
                ) by {
                    if i < pieces.len() - 1 {
                        assert(pieces[i] == text::split_on(v, '\n')[i]);
                    } else {
                        assert(pieces[i] == t);
                        assert(text::split_on(t, '\n')[0] == t);
                    }
                }
            }
            assert forall|i: int| 0 <= i < new.len() implies is_normal_value(
                (#[trigger] new[i]).1,
            ) by {
                if i < new.len() - 1 {
                    assert(new[i] == pairs[i]);
                }
            }
        }
    } else if 0 <= k < line.len() {
        let tail = line.skip(k + 1);
        if tail.contains('\n') {
            let j = choose|j: int| 0 <= j < tail.len() && tail[j] == '\n';
            assert(line[k + 1 + j] == '\n');
        }
        lemma_trimmed_is_normal(tail);
        assert forall|i: int| 0 <= i < new.len() implies is_normal_value((#[trigger] new[i]).1) by {
            if i < new.len() - 1 {
                assert(new[i] == pairs[i]);
            }
        }
    }
}

/// Lines without line feeds give pairs whose values are normal.
pub proof fn lemma_pairs_of_normal(lines: Seq<Seq<char>>)
    requires
        forall|i: int| 0 <= i < lines.len() ==> !(#[trigger] lines[i]).contains('\n'),
    ensures
        has_normal_values(control::pairs_of(lines)),
    decreases lines.len(),
{
    if lines.len() > 0 {
        let init = lines.drop_last();
        assert forall|i: int| 0 <= i < init.len() implies !(#[trigger] init[i]).contains('\n') by {
            assert(init[i] == lines[i]);
        }
        lemma_pairs_of_normal(init);
        lemma_take_line_normal(control::pairs_of(init), lines.last());
    }
}

/// Pairs whose values are normal give a normal record.
pub proof fn lemma_record_normal(pairs: Seq<(Seq<char>, Seq<char>)>)
    requires
        has_normal_values(pairs),
    ensures
        is_normal(control::record_of(pairs)),
    decreases pairs.len(),
{
    if pairs.len() > 0 {
        let init = pairs.drop_last();
        assert forall|i: int| 0 <= i < init.len() implies is_normal_value((#[trigger] init[i]).1) by {
            assert(init[i] == pairs[i]);
        }
        lemma_record_normal(init);
        assert(is_normal_value(pairs.last().1));
        let before = control::record_of(init);
        let now = control::record_of(pairs);
        assert forall|i: int| 0 <= i < FIELD_COUNT implies match #[trigger] now[i] {
            Some(v) => is_normal_value(v),
            None => true,
        } by {
            assert(now[i] == before[i] || now[i] == Some(pairs.last().1));
            assert(match before[i] {
                Some(v) => is_normal_value(v),
                None => true,
            });
        }
    }
}

/// What reading any control text gives is a normal record.
pub proof fn lemma_parsed_normal(text: Seq<char>)
    ensures
        is_normal(control::parsed(text)),
{
    let lines = text::lines_of(text);
    text::lemma_lines_hold_no_feed(text);
    let paragraph = control::first_paragraph(lines);
    lemma_run_bounds(lines, true);
    let rest = lines.skip(control::run_length(lines, true));
    lemma_run_bounds(rest, false);
    assert forall|i: int| 0 <= i < paragraph.len() implies !(#[trigger] paragraph[i]).contains(
        '\n',
    ) by {
        assert(paragraph[i] == lines[control::run_length(lines, true) + i]);
    }
    lemma_pairs_of_normal(paragraph);
    lemma_record_normal(control::pairs_of(paragraph));
}

/// A run of lines is no longer than the lines.
pub proof fn lemma_run_bounds(lines: Seq<Seq<char>>, blank: bool)
    ensures
        0 <= control::run_length(lines, blank) <= lines.len(),
    decreases lines.len(),
{
    if lines.len() > 0 && ((lines[0].len() == 0) == blank) {
        lemma_run_bounds(lines.drop_first(), blank);
    }
}

/// Writing what was read and reading it again gives the same record: a
/// control text and the paragraph written from its record differ, if at
/// all, in what reading passes over, such as the order of the keys and the
/// white space around the lines.
pub proof fn lemma_reading_is_stable(text: Seq<char>)
    ensures
        control::parsed(emitted(control::own_pairs(control::parsed(text)))) == control::parsed(
            text,
        ),
{
    lemma_parsed_normal(text);
    lemma_round_trip(control::parsed(text));
}

} // verus!
