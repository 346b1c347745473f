//! What a cell of a log holds.

use vstd::prelude::*;

use crate::csv_data::cell_number;
use crate::number_text::{number_of, without_sign};
use crate::text::{
    replace_char, strip_end, strip_start, trim, trim_end, trim_start, unquoted, white,
};

verus! {

/// A text without a character has nothing to replace.
pub proof fn lemma_nothing_replaced(s: Seq<char>, c: char, with: Seq<char>)
    requires
        !s.contains(c),
    ensures
        replace_char(s, c, with) == s,
    decreases s.len(),
{
    if s.len() > 0 {
        let rest = s.drop_last();
        assert(!rest.contains(c)) by {
            if rest.contains(c) {
                let i = choose|i: int| 0 <= i < rest.len() && rest[i] == c;
                assert(s[i] == c);
            }
        }
        assert(s.contains(s.last()));
        lemma_nothing_replaced(rest, c, with);
        assert(rest + seq![s.last()] =~= s);
    } else {
        assert(replace_char(s, c, with) =~= s);
    }
}

/// Replacing goes on behind the end of a text.
pub proof fn lemma_replaced_behind(s: Seq<char>, t: Seq<char>, c: char, with: Seq<char>)
    ensures
        replace_char(s + t, c, with) == replace_char(s, c, with) + replace_char(t, c, with),
    decreases t.len(),
{
    if t.len() == 0 {
        assert(s + t =~= s);
        assert(replace_char(t, c, with) =~= seq![]);
        assert(replace_char(s, c, with) + seq![] =~= replace_char(s, c, with));
    } else {
        assert((s + t).drop_last() =~= s + t.drop_last());
        assert((s + t).last() == t.last());
        lemma_replaced_behind(s, t.drop_last(), c, with);
        let last = if t.last() == c {
            with
        } else {
            seq![t.last()]
        };
        let a = replace_char(s, c, with);
        let b = replace_char(t.drop_last(), c, with);
        assert((a + b) + last =~= a + (b + last));
    }
}

/// Whether a text starts and ends with a character that is neither white space nor a
/// quotation mark.
pub open spec fn is_bare(s: Seq<char>) -> bool {
    &&& s.len() > 0
    &&& !white(s[0]) && s[0] != '"'
    &&& !white(s.last()) && s.last() != '"'
}

/// A bare text has neither white space nor quotation marks to lose.
pub proof fn lemma_bare(s: Seq<char>)
    requires
        is_bare(s),
    ensures
        trim(s) == s,
        unquoted(s) == s,
{
    assert(trim_start(s) == s);
    assert(trim_end(s) == s);
    assert(strip_start(s, '"') == s);
    assert(strip_end(s, '"') == s);
}

/// A cell is missing only where it holds no number: what a text without commas reads as
/// is what the cell holds, whatever the number is.
pub proof fn law_cell_is_its_number(text: Seq<char>)
    requires
        is_bare(text),
        !text.contains(','),
    ensures
        cell_number(text) == number_of(text),
{
    lemma_bare(text);
    lemma_nothing_replaced(text, ',', "."@);
}

/// A comma in a cell reads as a point.
pub proof fn law_comma_is_a_point(a: Seq<char>, b: Seq<char>)
    requires
        is_bare(a),
        is_bare(b),
        !a.contains(','),
        !b.contains(','),
    ensures
        cell_number(a + seq![','] + b) == number_of(a + seq!['.'] + b),
{
    let s = a + seq![','] + b;
    let point = "."@;
    reveal_strlit(".");
    assert(point =~= seq!['.']);
    assert(s[0] == a[0] && s.last() == b.last());
    lemma_bare(s);
    lemma_nothing_replaced(a, ',', point);
    lemma_nothing_replaced(b, ',', point);
    lemma_replaced_behind(a + seq![','], b, ',', point);
    lemma_replaced_behind(a, seq![','], ',', point);
    let c = seq![','];
    assert(c.drop_last() =~= seq![]);
    assert(replace_char(c.drop_last(), ',', point) =~= seq![]);
    assert(replace_char(c, ',', point) =~= point);
}

/// White space around a cell does not count.
pub proof fn law_space_around_a_cell(text: Seq<char>, c: char)
    requires
        is_bare(text),
        white(c),
    ensures
        cell_number(seq![c] + text) == cell_number(text),
        cell_number(text + seq![c]) == cell_number(text),
{
    lemma_bare(text);
    let a = seq![c] + text;
    assert(a.skip(1) =~= text);
    assert(trim_start(text) == text);
    assert(trim_start(a) == trim_start(a.skip(1)));
    let b = text + seq![c];
    assert(b[0] == text[0]);
    assert(trim_start(b) == b);
    assert(b.drop_last() =~= text);
    assert(trim_end(b) == trim_end(b.drop_last()));
}

/// Quotation marks around a cell do not count.
pub proof fn law_quotes_around_a_cell(text: Seq<char>)
    requires
        is_bare(text),
    ensures
        cell_number(seq!['"'] + text + seq!['"']) == cell_number(text),
{
    lemma_bare(text);
    let a = seq!['"'] + text + seq!['"'];
    assert(a[0] == '"' && a.last() == '"');
    assert(!white('"'));
    assert(trim_start(a) == a);
    assert(trim_end(a) == a);
    let b = text + seq!['"'];
    assert(a.skip(1) =~= b);
    assert(b[0] == text[0]);
    assert(strip_start(b, '"') == b);
    assert(strip_start(a, '"') == b);
    assert(b.drop_last() =~= text);
    assert(strip_end(text, '"') == text);
    assert(strip_end(b, '"') == text);
}

/// An empty cell holds nothing.
pub proof fn law_empty_cell()
    ensures
        cell_number(seq![]).is_none(),
{
    let s = Seq::<char>::empty();
    assert(trim_start(s) == s && trim_end(s) == s);
    assert(strip_start(s, '"') == s && strip_end(s, '"') == s);
}

/// A sign before a number is the sign of the number.
pub proof fn law_sign_of_a_number(s: Seq<char>)
    requires
        s.len() > 0,
        s[0] != '+',
        s[0] != '-',
    ensures
        number_of(seq!['+'] + s) == number_of(s),
        number_of(seq!['-'] + s) == match number_of(s) {
            Some(x) => Some(x.negated()),
            None => None,
        },
        number_of(s) matches Some(x) ==> !x.negative(),
{
    let a = seq!['+'] + s;
    let b = seq!['-'] + s;
    assert(a.skip(1) =~= s && b.skip(1) =~= s);
    assert(without_sign(s) == s && without_sign(a) == s && without_sign(b) == s);
}

} // verus!
