//! How numbers and values are written in messages.

use crate::json::Tree;
use crate::render::{escaped, escaped_char, quoted, rendered, rendered_entries, rendered_items};
use crate::text::{decimal, digit};
use vstd::arithmetic::div_mod::*;
use vstd::prelude::*;
use vstd::string::*;

verus! {

/// A number is written as its tens, followed by its last digit.
pub proof fn numerals_end_in_their_last_digit(tens: nat, last: nat)
    requires
        last < 10,
    ensures
        tens > 0 ==> decimal(10 * tens + last) == decimal(tens).push(digit(last)),
        decimal(last) == seq![digit(last)],
{
    let n = 10 * tens as int + last as int;
    lemma_fundamental_div_mod_converse(n, 10, tens as int, last as int);
}

/// The digits are the ten characters from `0` on.
pub proof fn digits_follow_each_other(d: nat)
    requires
        d < 10,
    ensures
        digit(d) as int == '0' as int + d,
{
}

/// A quotation begins and ends with a quote.
pub proof fn quotes_enclose_texts(s: Seq<char>)
    ensures
        quoted(s).len() >= 2,
        quoted(s)[0] == '"',
        quoted(s).last() == '"',
{
}

/// Texts of plain characters are quoted as they are.
pub proof fn plain_texts_are_quoted_as_they_are(s: Seq<char>)
    requires
        forall|i: int|
            0 <= i < s.len() ==> #[trigger] s[i] as int >= 32 && s[i] != '"' && s[i] != '\\',
    ensures
        quoted(s) == seq!['"'] + s + seq!['"'],
{
    lemma_plain(s, s.len());
    assert(s.take(s.len() as int) =~= s);
}

/// The first characters of a plain text.
proof fn lemma_plain(s: Seq<char>, n: nat)
    requires
        n <= s.len(),
        forall|i: int|
            0 <= i < s.len() ==> #[trigger] s[i] as int >= 32 && s[i] != '"' && s[i] != '\\',
    ensures
        escaped(s, n) == s.take(n as int),
    decreases n,
{
    if n > 0 {
        lemma_plain(s, (n - 1) as nat);
        assert(s[n - 1] as int >= 32);
        assert(escaped_char(s[n - 1]) =~= seq![s[n - 1]]);
        assert(s.take(n - 1) + seq![s[n - 1]] =~= s.take(n as int));
    }
    assert(escaped(s, n) =~= s.take(n as int));
}

/// Values are written in the words and marks of JSON, without spaces.
pub proof fn values_are_written_compactly(t: Tree)
    ensures
        t is Null ==> rendered(t) == "null"@,
        t == Tree::Bool(true) ==> rendered(t) == "true"@,
        t == Tree::Bool(false) ==> rendered(t) == "false"@,
        t matches Tree::Number(n) ==> rendered(t) == n.text,
        t matches Tree::Text(s) ==> rendered(t) == quoted(s),
{
}

/// A list is written element by element, with commas between.
pub proof fn lists_are_written_in_order(items: Seq<Tree>, n: nat)
    requires
        n < items.len(),
    ensures
        rendered(Tree::Array(items)) == "["@ + rendered_items(items, items.len()) + "]"@,
        rendered_items(items, 0).len() == 0,
        n == 0 ==> rendered_items(items, 1) == rendered(items[0]),
        n > 0 ==> rendered_items(items, n + 1) == rendered_items(items, n) + ","@ + rendered(
            items[n as int],
        ),
{
    if n == 0 {
        reveal_with_fuel(rendered_items, 2);
        assert(rendered_items(items, 1) =~= rendered(items[0]));
    }
}

/// An object is written entry by entry: the name in quotes, a colon, the value;
/// with commas between.
pub proof fn objects_are_written_in_order(entries: Seq<(Seq<char>, Tree)>, n: nat)
    requires
        n < entries.len(),
    ensures
        rendered(Tree::Object(entries)) == "{"@ + rendered_entries(entries, entries.len()) + "}"@,
        n == 0 ==> rendered_entries(entries, 1) == quoted(entries[0].0) + ":"@ + rendered(
            entries[0].1,
        ),
        n > 0 ==> rendered_entries(entries, n + 1) == rendered_entries(entries, n) + ","@ + quoted(
            entries[n as int].0,
        ) + ":"@ + rendered(entries[n as int].1),
{
    if n == 0 {
        reveal_with_fuel(rendered_entries, 2);
        assert(rendered_entries(entries, 1) =~= quoted(entries[0].0) + ":"@ + rendered(
            entries[0].1,
        ));
    }
}

} // verus!
