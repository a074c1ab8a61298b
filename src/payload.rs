//! The text embedded into a module: its annotation as JSON, inside an
//! attribute that only documentation builds see.

use vstd::prelude::*;
use vstd::string::StringSliceAdditionalSpecFns;
use vstd::utf8::encode_utf8;
use crate::extract::{Entry, EntryView, entries_view};
use crate::markers::strings_view;
use crate::splice::append_bytes;

verus! {

#[verifier::external_type_specification]
#[verifier::external_body]
pub struct ExJsonError(serde_json::Error);

/// The hexadecimal digit, in lower case, of a value below 16.
pub open spec fn hex_digit(d: u8) -> u8 {
    if d < 10 {
        (48 + d) as u8
    } else {
        (87 + d) as u8
    }
}

/// How `serde_json` writes a byte inside a JSON string: quote and backslash
/// after a backslash, the control bytes with a short escape where JSON has
/// one and as `\u00XX` otherwise, every other byte as it is.
pub open spec fn json_escaped_byte(b: u8) -> Seq<u8> {
    if b == QUOTE || b == BACKSLASH {
        seq![BACKSLASH, b]
    } else if b == 8 {
        seq![BACKSLASH, 98u8]
    } else if b == 9 {
        seq![BACKSLASH, 116u8]
    } else if b == 10 {
        seq![BACKSLASH, 110u8]
    } else if b == 12 {
        seq![BACKSLASH, 102u8]
    } else if b == 13 {
        seq![BACKSLASH, 114u8]
    } else if b < 32 {
        seq![BACKSLASH, 117u8, 48u8, 48u8, hex_digit(b / 16), hex_digit(b % 16)]
    } else {
        seq![b]
    }
}

/// The bytes of `s`, each written as inside a JSON string.
pub open spec fn json_escaped(s: Seq<u8>) -> Seq<u8>
    decreases s.len(),
{
    if s.len() == 0 {
        Seq::empty()
    } else {
        json_escaped(s.drop_last()) + json_escaped_byte(s.last())
    }
}

/// The JSON string, quotes and escapes included, of a text.
pub open spec fn json_string_of(s: Seq<char>) -> Seq<u8> {
    seq![QUOTE] + json_escaped(encode_utf8(s)) + seq![QUOTE]
}

/// Relies on `serde_json::to_vec` on a `str`: it writes into a `Vec`, which
/// cannot fail, a quote, the string's UTF-8 bytes escaped by the table of
/// `format_escaped_str_contents`, and a quote.
#[verifier::external_body]
fn json_quoted(s: &str) -> (r: Result<Vec<u8>, serde_json::Error>)
    ensures
        r is Ok,
        r matches Ok(b) ==> b@ == json_string_of(s@),
{
    serde_json::to_vec(s)
}

/// The JSON string of `s`.
pub fn quote(s: &str) -> (r: Vec<u8>)
    ensures
        r@ == json_string_of(s@),
{
    match json_quoted(s) {
        Ok(b) => b,
        Err(_) => {
            proof {
                assert(false);
            }
            Vec::new()
        },
    }
}

/// What goes before the annotation's JSON text: an inner attribute that
/// holds, in documentation builds only, a hidden element that a script finds
/// by its id.
pub const PAYLOAD_HEAD: &'static str = "#![cfg_attr(doc, doc = \"<div id=\\\"bevy-traits-data\\\" style=\\\"display:none\\\">";

/// What goes after the annotation's JSON text.
pub const PAYLOAD_TAIL: &'static str = "</div>\")]\n";

/// Bytes of the JSON and string-literal syntax.
pub const QUOTE: u8 = 34;
pub const COMMA: u8 = 44;
pub const COLON: u8 = 58;
pub const OPEN_BRACKET: u8 = 91;
pub const BACKSLASH: u8 = 92;
pub const CLOSE_BRACKET: u8 = 93;
pub const OPEN_BRACE: u8 = 123;
pub const CLOSE_BRACE: u8 = 125;

/// The pieces of `items` separated by commas.
pub open spec fn comma_joined(items: Seq<Seq<u8>>) -> Seq<u8>
    decreases items.len(),
{
    if items.len() == 0 {
        Seq::empty()
    } else if items.len() == 1 {
        items[0]
    } else {
        comma_joined(items.drop_last()) + seq![COMMA] + items.last()
    }
}

/// A JSON array of the given JSON values.
pub open spec fn json_array(items: Seq<Seq<u8>>) -> Seq<u8> {
    seq![OPEN_BRACKET] + comma_joined(items) + seq![CLOSE_BRACKET]
}

/// A JSON object member: a JSON string, a colon, an array.
pub open spec fn json_member(entry: (Seq<u8>, Seq<Seq<u8>>)) -> Seq<u8> {
    entry.0 + seq![COLON] + json_array(entry.1)
}

/// A JSON object of the given members, in order.
pub open spec fn json_object(entries: Seq<(Seq<u8>, Seq<Seq<u8>>)>) -> Seq<u8> {
    seq![OPEN_BRACE] + comma_joined(entries.map_values(|e: (Seq<u8>, Seq<Seq<u8>>)| json_member(e)))
        + seq![CLOSE_BRACE]
}

/// The JSON strings of the names of an entry.
pub open spec fn quoted_entry(e: EntryView) -> (Seq<u8>, Seq<Seq<u8>>) {
    (json_string_of(e.0), e.1.map_values(|m: Seq<char>| json_string_of(m)))
}

/// The JSON text of a module's annotation: an object from each type's name
/// to the array of its marker traits.
pub open spec fn annotation_json(entries: Seq<EntryView>) -> Seq<u8> {
    json_object(entries.map_values(|e: EntryView| quoted_entry(e)))
}

/// How a byte is written inside a string literal.
pub open spec fn escaped_byte(b: u8) -> Seq<u8> {
    if b == QUOTE || b == BACKSLASH {
        seq![BACKSLASH, b]
    } else {
        seq![b]
    }
}

/// `s` written inside a string literal: each quote and backslash escaped.
pub open spec fn escaped(s: Seq<u8>) -> Seq<u8>
    decreases s.len(),
{
    if s.len() == 0 {
        Seq::empty()
    } else {
        escaped(s.drop_last()) + escaped_byte(s.last())
    }
}

/// The text that embeds the JSON text `json` into a module.
pub open spec fn payload_of(json: Seq<u8>) -> Seq<u8> {
    PAYLOAD_HEAD.spec_bytes() + escaped(json) + PAYLOAD_TAIL.spec_bytes()
}

/// Appends to `out` the pieces of `items` separated by commas.
fn push_joined(out: &mut Vec<u8>, items: &Vec<Vec<u8>>)
    ensures
        final(out)@ == old(out)@ + comma_joined(items@.map_values(|v: Vec<u8>| v@)),
{
    let ghost start = out@;
    let ghost views = items@.map_values(|v: Vec<u8>| v@);
    let mut i: usize = 0;
    proof {
        assert(views.take(0) =~= Seq::<Seq<u8>>::empty());
    }
    while i < items.len()
        invariant
            views == items@.map_values(|v: Vec<u8>| v@),
            i <= items@.len(),
            out@ == start + comma_joined(views.take(i as int)),
        decreases items@.len() - i,
    {
        if i > 0 {
            out.push(COMMA);
        }
        append_bytes(out, items[i].as_slice());
        proof {
            let next = views.take(i + 1);
            assert(next.drop_last() =~= views.take(i as int));
            assert(next.last() == items@[i as int]@);
            assert(out@ =~= start + comma_joined(next));
        }
        i = i + 1;
    }
    proof {
        assert(views.take(i as int) =~= views);
    }
}

/// The JSON object of already quoted members: each pair holds a JSON string
/// and the JSON strings of its array.
pub fn frame_annotation(quoted: &Vec<(Vec<u8>, Vec<Vec<u8>>)>) -> (r: Vec<u8>)
    ensures
        r@ == json_object(
            quoted@.map_values(
                |q: (Vec<u8>, Vec<Vec<u8>>)| (q.0@, q.1@.map_values(|v: Vec<u8>| v@)),
            ),
        ),
{
    let ghost views = quoted@.map_values(
        |q: (Vec<u8>, Vec<Vec<u8>>)| (q.0@, q.1@.map_values(|v: Vec<u8>| v@)),
    );
    let ghost members = views.map_values(|e: (Seq<u8>, Seq<Seq<u8>>)| json_member(e));
    let mut out: Vec<u8> = Vec::new();
    out.push(OPEN_BRACE);
    let mut i: usize = 0;
    proof {
        assert(members.take(0) =~= Seq::<Seq<u8>>::empty());
        assert(out@ =~= seq![OPEN_BRACE] + comma_joined(members.take(0)));
    }
    while i < quoted.len()
        invariant
            views == quoted@.map_values(
                |q: (Vec<u8>, Vec<Vec<u8>>)| (q.0@, q.1@.map_values(|v: Vec<u8>| v@)),
            ),
            members == views.map_values(|e: (Seq<u8>, Seq<Seq<u8>>)| json_member(e)),
            i <= quoted@.len(),
            out@ == seq![OPEN_BRACE] + comma_joined(members.take(i as int)),
        decreases quoted@.len() - i,
    {
        if i > 0 {
            out.push(COMMA);
        }
        let ghost sep = out@;
        let (name, marks) = &quoted[i];
        append_bytes(&mut out, name.as_slice());
        out.push(COLON);
        out.push(OPEN_BRACKET);
        push_joined(&mut out, marks);
        out.push(CLOSE_BRACKET);
        proof {
            let m = json_member(views[i as int]);
            assert(views[i as int] == (name@, marks@.map_values(|v: Vec<u8>| v@)));
            assert(out@ =~= sep + m);
            let next = members.take(i + 1);
            assert(next.drop_last() =~= members.take(i as int));
            assert(next.last() == m);
            assert(out@ =~= seq![OPEN_BRACE] + comma_joined(next));
        }
        i = i + 1;
    }
    out.push(CLOSE_BRACE);
    proof {
        assert(members.take(i as int) =~= members);
    }
    out
}

/// Appends to `out` the bytes of `s` written inside a string literal.
fn push_escaped(out: &mut Vec<u8>, s: &[u8])
    ensures
        final(out)@ == old(out)@ + escaped(s@),
{
    let ghost start = out@;
    let mut i: usize = 0;
    proof {
        assert(s@.take(0) =~= Seq::<u8>::empty());
    }
    while i < s.len()
        invariant
            i <= s@.len(),
            out@ == start + escaped(s@.take(i as int)),
        decreases s@.len() - i,
    {
        let b = s[i];
        if b == QUOTE || b == BACKSLASH {
            out.push(BACKSLASH);
        }
        out.push(b);
        proof {
            let next = s@.take(i + 1);
            assert(next.drop_last() =~= s@.take(i as int));
            assert(next.last() == b);
            assert(out@ =~= start + escaped(next));
        }
        i = i + 1;
    }
    proof {
        assert(s@.take(i as int) =~= s@);
    }
}

/// The text that embeds the JSON text `json` into a module: the attribute
/// around it, with `json` escaped as a string literal.
pub fn payload(json: &[u8]) -> (r: Vec<u8>)
    ensures
        r@ == payload_of(json@),
{
    let mut out: Vec<u8> = Vec::new();
    append_bytes(&mut out, PAYLOAD_HEAD.as_bytes());
    push_escaped(&mut out, json);
    append_bytes(&mut out, PAYLOAD_TAIL.as_bytes());
    proof {
        assert(out@ =~= payload_of(json@));
    }
    out
}

/// The JSON strings of `names`, in order.
fn quote_all(names: &Vec<String>) -> (r: Vec<Vec<u8>>)
    ensures
        r@.map_values(|v: Vec<u8>| v@) == strings_view(names@).map_values(
            |m: Seq<char>| json_string_of(m),
        ),
{
    let ghost want = strings_view(names@).map_values(|m: Seq<char>| json_string_of(m));
    let mut out: Vec<Vec<u8>> = Vec::new();
    let mut i: usize = 0;
    while i < names.len()
        invariant
            want == strings_view(names@).map_values(|m: Seq<char>| json_string_of(m)),
            i <= names@.len(),
            out@.map_values(|v: Vec<u8>| v@) == want.take(i as int),
        decreases names@.len() - i,
    {
        let b = quote(names[i].as_str());
        let ghost before = out@;
        out.push(b);
        proof {
            assert(want[i as int] == json_string_of(names@[i as int]@));
            let prev = before.map_values(|v: Vec<u8>| v@);
            assert(want.len() == names@.len());
            assert(prev.len() == i);
            assert(before.len() == i);
            assert(out@ == before.push(b));
            assert forall|j: int| 0 <= j < i implies out@[j]@ == want[j] by {
                assert(out@[j] == before[j]);
                assert(prev[j] == want.take(i as int)[j]);
            }
            assert(out@.map_values(|v: Vec<u8>| v@) =~= want.take(i + 1));
        }
        i = i + 1;
    }
    proof {
        assert(want.take(i as int) =~= want);
    }
    out
}

/// The JSON text of a module's annotation.
pub fn encode_annotation(entries: &Vec<Entry>) -> (r: Vec<u8>)
    ensures
        r@ == annotation_json(entries_view(entries@)),
{
    let ghost want = entries_view(entries@).map_values(|e: EntryView| quoted_entry(e));
    let mut quoted: Vec<(Vec<u8>, Vec<Vec<u8>>)> = Vec::new();
    let mut i: usize = 0;
    while i < entries.len()
        invariant
            want == entries_view(entries@).map_values(|e: EntryView| quoted_entry(e)),
            i <= entries@.len(),
            quoted@.map_values(
                |q: (Vec<u8>, Vec<Vec<u8>>)| (q.0@, q.1@.map_values(|v: Vec<u8>| v@)),
            ) == want.take(i as int),
        decreases entries@.len() - i,
    {
        let name = quote(entries[i].name.as_str());
        let marks = quote_all(&entries[i].markers);
        let ghost before = quoted@;
        quoted.push((name, marks));
        proof {
            let e = entries@[i as int];
            assert(entries_view(entries@)[i as int] == e@);
            assert(strings_view(e.markers@).map_values(|m: Seq<char>| json_string_of(m))
                =~= e@.1.map_values(|m: Seq<char>| json_string_of(m)));
            assert(want[i as int] == quoted_entry(e@));
            let prev = before.map_values(
                |q: (Vec<u8>, Vec<Vec<u8>>)| (q.0@, q.1@.map_values(|v: Vec<u8>| v@)),
            );
            assert(want.len() == entries@.len());
            assert(prev.len() == i);
            assert(before.len() == i);
            assert forall|j: int| 0 <= j < i implies (quoted@[j].0@, quoted@[j].1@.map_values(
                |v: Vec<u8>| v@,
            )) == want[j] by {
                assert(quoted@[j] == before[j]);
                assert(prev[j] == want.take(i as int)[j]);
            }
            assert(quoted@.map_values(
                |q: (Vec<u8>, Vec<Vec<u8>>)| (q.0@, q.1@.map_values(|v: Vec<u8>| v@)),
            ) =~= want.take(i + 1));
        }
        i = i + 1;
    }
    proof {
        assert(want.take(i as int) =~= want);
    }
    frame_annotation(&quoted)
}

} // verus!
