//! JSON values in compact notation, for error messages.

use crate::json::{Json, Tree};
use crate::text::digit;
use vstd::prelude::*;
use vstd::string::*;

verus! {

/// The character of a hexadecimal digit.
pub open spec fn hex_digit(d: int) -> char {
    if d < 10 {
        digit(d as nat)
    } else if d == 10 {
        'a'
    } else if d == 11 {
        'b'
    } else if d == 12 {
        'c'
    } else if d == 13 {
        'd'
    } else if d == 14 {
        'e'
    } else {
        'f'
    }
}

/// How a character is written inside a JSON string.
pub open spec fn escaped_char(c: char) -> Seq<char> {
    if c == '"' {
        seq!['\\', '"']
    } else if c == '\\' {
        seq!['\\', '\\']
    } else if c as int == 8 {
        seq!['\\', 'b']
    } else if c as int == 9 {
        seq!['\\', 't']
    } else if c as int == 10 {
        seq!['\\', 'n']
    } else if c as int == 12 {
        seq!['\\', 'f']
    } else if c as int == 13 {
        seq!['\\', 'r']
    } else if (c as int) < 32 {
        seq!['\\', 'u', '0', '0', hex_digit(c as int / 16), hex_digit(c as int % 16)]
    } else {
        seq![c]
    }
}

/// How the first `n` characters of a text are written inside a JSON string.
pub open spec fn escaped(s: Seq<char>, n: nat) -> Seq<char>
    decreases n,
{
    if n == 0 {
        Seq::empty()
    } else {
        escaped(s, (n - 1) as nat) + escaped_char(s[n - 1])
    }
}

/// A JSON string.
pub open spec fn quoted(s: Seq<char>) -> Seq<char> {
    seq!['"'] + escaped(s, s.len()) + seq!['"']
}

/// `serde_json::Value::from` and `to_string` on a string. The contract claims
/// that the string is written in quotes, the quote, the backslash and the control
/// characters below the space escaped, and every other character as it is.
#[verifier::external_body]
fn quote(s: &str) -> (r: String)
    ensures
        r@ == quoted(s@),
{
    serde_json::Value::from(s).to_string()
}

/// A JSON value in compact notation.
pub open spec fn rendered(t: Tree) -> Seq<char>
    decreases t, 0nat,
{
    match t {
        Tree::Null => "null"@,
        Tree::Bool(b) => if b {
            "true"@
        } else {
            "false"@
        },
        Tree::Number(n) => n.text,
        Tree::Text(s) => quoted(s),
        Tree::Array(items) => "["@ + rendered_items(items, items.len()) + "]"@,
        Tree::Object(entries) => "{"@ + rendered_entries(entries, entries.len()) + "}"@,
    }
}

/// The first `n` elements of an array, separated by commas.
pub open spec fn rendered_items(items: Seq<Tree>, n: nat) -> Seq<char>
    decreases items, n,
{
    if n == 0 || n > items.len() {
        Seq::empty()
    } else {
        rendered_items(items, (n - 1) as nat) + (if n > 1 {
            ","@
        } else {
            Seq::empty()
        }) + rendered(items[n - 1])
    }
}

/// The first `n` entries of an object, separated by commas.
pub open spec fn rendered_entries(entries: Seq<(Seq<char>, Tree)>, n: nat) -> Seq<char>
    decreases entries, n,
{
    if n == 0 || n > entries.len() {
        Seq::empty()
    } else {
        proof {
            assert(decreases_to!(entries => entries[n - 1]));
            assert(decreases_to!(entries[n - 1] => entries[n - 1].1));
        }
        rendered_entries(entries, (n - 1) as nat) + (if n > 1 {
            ","@
        } else {
            Seq::empty()
        }) + quoted(entries[n - 1].0) + ":"@ + rendered(entries[n - 1].1)
    }
}

fn push_quoted(out: &mut String, s: &str)
    ensures
        final(out)@ == old(out)@ + quoted(s@),
{
    let text = quote(s);
    out.append(text.as_str());
}

/// Append a JSON value in compact notation.
pub fn push_json(out: &mut String, j: &Json)
    ensures
        final(out)@ == old(out)@ + rendered(j@),
    decreases j,
{
    match j {
        Json::Null => {
            out.append("null");
        },
        Json::Bool(b) => {
            if *b {
                out.append("true");
            } else {
                out.append("false");
            }
        },
        Json::Number(n) => {
            out.append(n.text.as_str());
        },
        Json::Text(s) => {
            push_quoted(out, s.as_str());
        },
        Json::Array(items) => {
            let ghost first = out@;
            let ghost t = j@->Array_0;
            out.append("[");
            let n = items.len();
            let mut i: usize = 0;
            assert(out@ =~= first + ("["@ + rendered_items(t, 0)));
            while i < n
                invariant
                    j == Json::Array(*items),
                    n == items@.len(),
                    i <= n,
                    t.len() == n,
                    forall|k: int| 0 <= k < n ==> #[trigger] t[k] == items@[k]@,
                    out@ == first + ("["@ + rendered_items(t, i as nat)),
                decreases n - i,
            {
                let ghost before = out@;
                if i > 0 {
                    out.append(",");
                }
                assert(decreases_to!(*j => j->Array_0));
                assert(decreases_to!(items => items@));
                assert(decreases_to!(items@ => items@[i as int]));
                push_json(out, &items[i]);
                i += 1;
                assert(out@ =~= first + ("["@ + rendered_items(t, i as nat)));
            }
            out.append("]");
            assert(out@ =~= first + rendered(j@));
        },
        Json::Object(entries) => {
            let ghost first = out@;
            let ghost t = j@->Object_0;
            out.append("{");
            let n = entries.len();
            let mut i: usize = 0;
            assert(out@ =~= first + ("{"@ + rendered_entries(t, 0)));
            while i < n
                invariant
                    j == Json::Object(*entries),
                    n == entries@.len(),
                    i <= n,
                    t.len() == n,
                    forall|k: int|
                        0 <= k < n ==> #[trigger] t[k] == (entries@[k].0@, entries@[k].1@),
                    out@ == first + ("{"@ + rendered_entries(t, i as nat)),
                decreases n - i,
            {
                if i > 0 {
                    out.append(",");
                }
                push_quoted(out, entries[i].0.as_str());
                out.append(":");
                assert(decreases_to!(*j => j->Object_0));
                assert(decreases_to!(entries => entries@));
                assert(decreases_to!(entries@ => entries@[i as int]));
                assert(decreases_to!(entries@[i as int] => entries@[i as int].1));
                push_json(out, &entries[i].1);
                i += 1;
                assert(out@ =~= first + ("{"@ + rendered_entries(t, i as nat)));
            }
            out.append("}");
            assert(out@ =~= first + rendered(j@));
        },
    }
}

/// `before` and a JSON value in compact notation.
pub fn with_json(before: &str, j: &Json) -> (r: String)
    ensures
        r@ == before@ + rendered(j@),
{
    let mut r = before.to_owned();
    push_json(&mut r, j);
    r
}

} // verus!
