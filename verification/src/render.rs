//! Rendering a response body: parse it as JSON, sort every object's keys,
//! and pretty-print the result under a header; text that is not JSON is
//! shown verbatim under a plain header.
use vstd::prelude::*;

use crate::json::{JsonModel, JsonValue, sort_model, sort_json, models_of, entries_of, unique_keys};
use crate::text::{digit_char, chars_to_string};

verus! {

/// The hexadecimal digit character of a value below sixteen.
pub open spec fn hex_char(d: int) -> char {
    if d < 10 {
        digit_char(d)
    } else {
        (('a' as u8) + ((d - 10) as u8)) as char
    }
}

/// How one character appears inside a rendered JSON string: quotes,
/// backslashes, and the control characters backspace, tab, newline, form
/// feed and carriage return get a two-character escape, other control
/// characters a `\u00..` escape, the rest stand as they are.
pub open spec fn escape_char(c: char) -> Seq<char> {
    if c == '"' {
        seq!['\\', '"']
    } else if c == '\\' {
        seq!['\\', '\\']
    } else if c == '\n' {
        seq!['\\', 'n']
    } else if c == '\r' {
        seq!['\\', 'r']
    } else if c == '\t' {
        seq!['\\', 't']
    } else if c == '\u{0008}' {
        seq!['\\', 'b']
    } else if c == '\u{000C}' {
        seq!['\\', 'f']
    } else if (c as int) < 32 {
        seq!['\\', 'u', '0', '0', hex_char(c as int / 16), hex_char(c as int % 16)]
    } else {
        seq![c]
    }
}

/// A string's characters, each escaped.
pub open spec fn escape_seq(s: Seq<char>) -> Seq<char>
    decreases s.len(),
{
    if s.len() == 0 {
        Seq::<char>::empty()
    } else {
        escape_char(s[0]) + escape_seq(s.drop_first())
    }
}

/// The indentation of one nesting depth: two spaces per level.
pub open spec fn indent_seq(d: nat) -> Seq<char>
    decreases d,
{
    if d == 0 {
        Seq::<char>::empty()
    } else {
        indent_seq((d - 1) as nat) + seq![' ', ' ']
    }
}

/// The pretty-printed text of a document at nesting depth `d`: scalars on
/// one line, arrays and objects with one element per line, indented two
/// spaces per level.
pub open spec fn render_model(m: JsonModel, d: nat) -> Seq<char>
    decreases m, 0nat, 0int,
{
    match m {
        JsonModel::Null => seq!['n', 'u', 'l', 'l'],
        JsonModel::Bool(b) => if b {
            seq!['t', 'r', 'u', 'e']
        } else {
            seq!['f', 'a', 'l', 's', 'e']
        },
        JsonModel::Number(s) => s,
        JsonModel::Text(s) => seq!['"'] + escape_seq(s) + seq!['"'],
        JsonModel::Array(a) => if a.len() == 0 {
            seq!['[', ']']
        } else {
            seq!['[', '\n'] + render_items(a, a.len() as int, d + 1) + seq!['\n'] + indent_seq(d)
                + seq![']']
        },
        JsonModel::Object(ps) => if ps.len() == 0 {
            seq!['{', '}']
        } else {
            seq!['{', '\n'] + render_fields(ps, ps.len() as int, d + 1) + seq!['\n'] + indent_seq(
                d,
            ) + seq!['}']
        },
    }
}

/// The text of the first `i` elements of an array, each on its own line,
/// separated by commas.
pub open spec fn render_items(a: Seq<JsonModel>, i: int, d: nat) -> Seq<char>
    decreases a, 1nat, i,
{
    if i <= 0 || i > a.len() {
        Seq::<char>::empty()
    } else {
        render_items(a, i - 1, d) + (if i == 1 {
            Seq::<char>::empty()
        } else {
            seq![',', '\n']
        }) + indent_seq(d) + render_model(a[i - 1], d)
    }
}

/// The text of the first `i` entries of an object: quoted key, a colon,
/// the value, one entry per line.
pub open spec fn render_fields(ps: Seq<(Seq<char>, JsonModel)>, i: int, d: nat) -> Seq<char>
    decreases ps, 1nat, i,
{
    if i <= 0 || i > ps.len() {
        Seq::<char>::empty()
    } else {
        render_fields(ps, i - 1, d) + (if i == 1 {
            Seq::<char>::empty()
        } else {
            seq![',', '\n']
        }) + indent_seq(d) + seq!['"'] + escape_seq(ps[i - 1].0) + seq!['"', ':', ' ']
            + render_model(ps[i - 1].1, d)
    }
}

fn push_escaped(s: &str, out: &mut Vec<char>)
    ensures
        final(out)@ =~= old(out)@ + escape_seq(s@),
{
    let n = s.unicode_len();
    let mut i: usize = 0;
    assert(s@.subrange(0, n as int) =~= s@);
    while i < n
        invariant
            0 <= i <= n == s@.len(),
            out@ =~= old(out)@ + escape_seq(s@.subrange(0, i as int)),
        decreases n - i,
    {
        let c = s.get_char(i);
        proof {
            lemma_escape_seq_snoc(s@.subrange(0, i as int), c);
            assert(s@.subrange(0, i as int).push(c) =~= s@.subrange(0, i + 1));
        }
        if c == '"' {
            out.push('\\');
            out.push('"');
        } else if c == '\\' {
            out.push('\\');
            out.push('\\');
        } else if c == '\n' {
            out.push('\\');
            out.push('n');
        } else if c == '\r' {
            out.push('\\');
            out.push('r');
        } else if c == '\t' {
            out.push('\\');
            out.push('t');
        } else if c == '\u{0008}' {
            out.push('\\');
            out.push('b');
        } else if c == '\u{000C}' {
            out.push('\\');
            out.push('f');
        } else if (c as u32) < 32 {
            out.push('\\');
            out.push('u');
            out.push('0');
            out.push('0');
            let lo = (c as u32) % 16;
            let hi = (c as u32) / 16;
            out.push(if hi < 10 {
                (('0' as u8) + (hi as u8)) as char
            } else {
                (('a' as u8) + ((hi - 10) as u8)) as char
            });
            out.push(if lo < 10 {
                (('0' as u8) + (lo as u8)) as char
            } else {
                (('a' as u8) + ((lo - 10) as u8)) as char
            });
        } else {
            out.push(c);
        }
        i += 1;
    }
}

/// Escaping distributes over adding one character at the end.
proof fn lemma_escape_seq_snoc(s: Seq<char>, c: char)
    ensures
        escape_seq(s.push(c)) =~= escape_seq(s) + escape_char(c),
    decreases s.len(),
{
    if s.len() == 0 {
        assert(s.push(c)[0] == c);
        assert(s.push(c).drop_first() =~= Seq::<char>::empty());
        assert(escape_seq(s.push(c)) =~= escape_char(c) + escape_seq(Seq::<char>::empty()));
        assert(escape_seq(s) =~= Seq::<char>::empty());
    } else {
        assert(s.push(c)[0] == s[0]);
        assert(s.push(c).drop_first() =~= s.drop_first().push(c));
        lemma_escape_seq_snoc(s.drop_first(), c);
        assert(escape_seq(s.push(c)) =~= escape_char(s[0]) + escape_seq(s.drop_first().push(c)));
        assert(escape_seq(s) =~= escape_char(s[0]) + escape_seq(s.drop_first()));
    }
}

/// Append one vector of characters to another.
fn append_chars(src: &Vec<char>, out: &mut Vec<char>)
    ensures
        final(out)@ =~= old(out)@ + src@,
{
    let mut i: usize = 0;
    while i < src.len()
        invariant
            0 <= i <= src@.len(),
            out@ =~= old(out)@ + src@.subrange(0, i as int),
        decreases src@.len() - i,
    {
        out.push(src[i]);
        assert(src@.subrange(0, i + 1) =~= src@.subrange(0, i as int).push(src@[i as int]));
        i += 1;
    }
    assert(src@.subrange(0, src@.len() as int) =~= src@);
}

/// Append the pretty-printed text of a document. The current indentation
/// stands in `pad`, one pair of spaces per nesting depth `d`; it is left as
/// it was found.
fn push_rendered(v: &JsonValue, pad: &mut Vec<char>, Ghost(d): Ghost<nat>, out: &mut Vec<char>)
    requires
        old(pad)@ == indent_seq(d),
    ensures
        final(out)@ =~= old(out)@ + render_model(v@, d),
        final(pad)@ == old(pad)@,
    decreases *v,
{
    match v {
        JsonValue::Null => {
            out.push('n');
            out.push('u');
            out.push('l');
            out.push('l');
        },
        JsonValue::Bool(b) => {
            if *b {
                out.push('t');
                out.push('r');
                out.push('u');
                out.push('e');
            } else {
                out.push('f');
                out.push('a');
                out.push('l');
                out.push('s');
                out.push('e');
            }
        },
        JsonValue::Number(s) => {
            let n = s.as_str().unicode_len();
            let mut i: usize = 0;
            while i < n
                invariant
                    0 <= i <= n == s@.len(),
                    *v == JsonValue::Number(*s),
                    out@ =~= old(out)@ + s@.subrange(0, i as int),
                decreases n - i,
            {
                out.push(s.as_str().get_char(i));
                assert(s@.subrange(0, i + 1) =~= s@.subrange(0, i as int).push(s@[i as int]));
                i += 1;
            }
            assert(s@.subrange(0, n as int) =~= s@);
        },
        JsonValue::Text(s) => {
            out.push('"');
            push_escaped(s.as_str(), out);
            out.push('"');
            assert(out@ =~= old(out)@ + (seq!['"'] + escape_seq(s@) + seq!['"']));
        },
        JsonValue::Array(arr) => {
            let ghost am = models_of(arr@);
            if arr.len() == 0 {
                out.push('[');
                out.push(']');
                assert(out@ =~= old(out)@ + seq!['[', ']']);
            } else {
                out.push('[');
                out.push('\n');
                pad.push(' ');
                pad.push(' ');
                assert(pad@ =~= indent_seq(d + 1));
                let mut i: usize = 0;
                while i < arr.len()
                    invariant
                        0 <= i <= arr@.len(),
                        *v == JsonValue::Array(*arr),
                        am == models_of(arr@),
                        pad@ == indent_seq(d + 1),
                        out@ =~= old(out)@ + seq!['[', '\n'] + render_items(am, i as int, d + 1),
                    decreases arr@.len() - i,
                {
                    if i > 0 {
                        out.push(',');
                        out.push('\n');
                    }
                    append_chars(&*pad, out);
                    proof {
                        assert(decreases_to!(*v => (*v)->Array_0));
                        assert((*v)->Array_0 == *arr);
                        assert(decreases_to!(*arr => arr@));
                        assert(decreases_to!(arr@ => arr@[i as int]));
                    }
                    push_rendered(&arr[i], pad, Ghost(d + 1), out);
                    proof {
                        assert(am[i as int] == arr@[i as int]@);
                        assert(out@ =~= old(out)@ + seq!['[', '\n'] + render_items(
                            am,
                            i + 1,
                            d + 1,
                        ));
                    }
                    i += 1;
                }
                out.push('\n');
                pad.pop();
                pad.pop();
                assert(pad@ =~= indent_seq(d));
                append_chars(&*pad, out);
                out.push(']');
                assert(out@ =~= old(out)@ + (seq!['[', '\n'] + render_items(
                    am,
                    am.len() as int,
                    d + 1,
                ) + seq!['\n'] + indent_seq(d) + seq![']']));
            }
        },
        JsonValue::Object(o) => {
            let ghost pm = entries_of(o@);
            if o.len() == 0 {
                out.push('{');
                out.push('}');
                assert(out@ =~= old(out)@ + seq!['{', '}']);
            } else {
                out.push('{');
                out.push('\n');
                pad.push(' ');
                pad.push(' ');
                assert(pad@ =~= indent_seq(d + 1));
                let mut i: usize = 0;
                while i < o.len()
                    invariant
                        0 <= i <= o@.len(),
                        *v == JsonValue::Object(*o),
                        pm == entries_of(o@),
                        pad@ == indent_seq(d + 1),
                        out@ =~= old(out)@ + seq!['{', '\n'] + render_fields(pm, i as int, d + 1),
                    decreases o@.len() - i,
                {
                    if i > 0 {
                        out.push(',');
                        out.push('\n');
                    }
                    append_chars(&*pad, out);
                    out.push('"');
                    push_escaped(o[i].0.as_str(), out);
                    out.push('"');
                    out.push(':');
                    out.push(' ');
                    proof {
                        assert(decreases_to!(*v => (*v)->Object_0));
                        assert((*v)->Object_0 == *o);
                        assert(decreases_to!(*o => o@));
                        assert(decreases_to!(o@ => o@[i as int]));
                        assert(decreases_to!(o@[i as int] => o@[i as int].1));
                    }
                    push_rendered(&o[i].1, pad, Ghost(d + 1), out);
                    proof {
                        assert(pm[i as int] == (o@[i as int].0@, o@[i as int].1@));
                        assert(out@ =~= old(out)@ + seq!['{', '\n'] + render_fields(
                            pm,
                            i + 1,
                            d + 1,
                        ));
                    }
                    i += 1;
                }
                out.push('\n');
                pad.pop();
                pad.pop();
                assert(pad@ =~= indent_seq(d));
                append_chars(&*pad, out);
                out.push('}');
                assert(out@ =~= old(out)@ + (seq!['{', '\n'] + render_fields(
                    pm,
                    pm.len() as int,
                    d + 1,
                ) + seq!['\n'] + indent_seq(d) + seq!['}']));
            }
        },
    }
}

/// Pretty-print a document from its top level.
pub fn json_to_text(v: &JsonValue) -> (r: String)
    ensures
        r@ == render_model(v@, 0),
{
    let mut out: Vec<char> = Vec::new();
    let mut pad: Vec<char> = Vec::new();
    assert(pad@ =~= indent_seq(0));
    push_rendered(v, &mut pad, Ghost(0nat), &mut out);
    chars_to_string(&out)
}

/// The JSON document a text stands for, if it is valid JSON: what the JSON
/// parser returns, a function of the text alone.
pub uninterp spec fn json_doc(s: Seq<char>) -> Option<JsonModel>;

#[verifier::external_type_specification]
#[verifier::external_body]
pub struct ExValue(serde_json::Value);

/// Relies on serde_json::Value: converts each variant of a parsed value,
/// one arm each; a number becomes its canonical text, and object entries
/// come out in the map's iteration order, sorted by key.
#[verifier::external_body]
fn value_to_json(v: &serde_json::Value) -> JsonValue {
    match v {
        serde_json::Value::Null => JsonValue::Null,
        serde_json::Value::Bool(b) => JsonValue::Bool(*b),
        serde_json::Value::Number(n) => JsonValue::Number(n.to_string()),
        serde_json::Value::String(s) => JsonValue::Text(s.clone()),
        serde_json::Value::Array(a) => JsonValue::Array(a.iter().map(value_to_json).collect()),
        serde_json::Value::Object(m) => JsonValue::Object(
            m.iter().map(|(k, val)| (k.clone(), value_to_json(val))).collect(),
        ),
    }
}

/// Relies on serde_json::from_str::<serde_json::Value>: it returns Ok
/// exactly on valid JSON text, the same document for the same text on
/// every run; every object comes out as a map, each key held once (the
/// last of duplicate keys wins during parsing).
#[verifier::external_body]
pub(crate) fn parse_json(s: &str) -> (r: Option<JsonValue>)
    ensures
        (r is Some) == (json_doc(s@) is Some),
        r matches Some(v) ==> Some(v@) == json_doc(s@) && unique_keys(v@),
{
    match serde_json::from_str::<serde_json::Value>(s) {
        Ok(v) => Some(value_to_json(&v)),
        Err(_) => None,
    }
}

/// Render a response body for display: valid JSON is shown with every
/// object's keys sorted, pretty-printed under its header; anything else is
/// shown verbatim under a plain header.
pub fn render(body: &str) -> (r: String)
    ensures
        json_doc(body@) matches Some(m) ==> r@ == "Response body (JSON with sorted keys):\n"@
            + render_model(sort_model(m), 0),
        json_doc(body@) is None ==> r@ == "Response:\n"@ + body@,
{
    match parse_json(body) {
        Some(v) => {
            let sorted = sort_json(&v);
            let text = json_to_text(&sorted);
            let mut r = String::from_str("Response body (JSON with sorted keys):\n");
            r.append(text.as_str());
            r
        },
        None => {
            let mut r = String::from_str("Response:\n");
            r.append(body);
            r
        },
    }
}

} // verus!
