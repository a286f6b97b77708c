//! Rendering of messages: an aligned `tag name = value (label)` table, one
//! JSON object per line, the raw FIX bytes, and a fixed-schema CSV row.
//! Every writer appends bytes to a buffer; the caller sends them on.
use vstd::prelude::*;

use crate::bytes::copy_bytes;
use crate::dict::resolver::{ResolvedField, ResolvedMessage};
use crate::parser::{
    RawMessage, TAG_MSG_SEQ_NUM, TAG_MSG_TYPE, TAG_SENDER_COMP_ID, TAG_SENDING_TIME, TAG_TARGET_COMP_ID,
    fields_of, find_tag, first_value,
};

verus! {

/// The bytes of a string.
pub open spec fn str_bytes(s: &str) -> Seq<u8> {
    vstd::utf8::encode_utf8(s@)
}

/// The text `String::from_utf8_lossy` makes of some bytes: the bytes
/// themselves when they are valid UTF-8, each invalid sequence replaced by
/// U+FFFD otherwise.
pub uninterp spec fn utf8_lossy(bytes: Seq<u8>) -> Seq<u8>;

/// `String::from_utf8_lossy`: the bytes as text, invalid sequences replaced
/// by U+FFFD.
///
/// The contract names the result and states what the documentation
/// promises: valid UTF-8 comes back unchanged, and the result is valid
/// UTF-8.
#[verifier::external_body]
pub(crate) fn lossy(bytes: &[u8]) -> (r: Vec<u8>)
    ensures
        r@ == utf8_lossy(bytes@),
        vstd::utf8::valid_utf8(bytes@) ==> r@ == bytes@,
        vstd::utf8::valid_utf8(r@),
{
    String::from_utf8_lossy(bytes).into_owned().into_bytes()
}

/// The decimal digits of `n`.
pub open spec fn decimal(n: nat) -> Seq<u8>
    decreases n,
{
    if n < 10 {
        seq![(48 + n) as u8]
    } else {
        decimal(n / 10).push((48 + n % 10) as u8)
    }
}

/// Append the decimal digits of `n`.
pub fn push_decimal(out: &mut Vec<u8>, n: u64)
    ensures
        final(out)@ == old(out)@ + decimal(n as nat),
    decreases n,
{
    if n < 10 {
        out.push((48 + n) as u8);
        assert(decimal(n as nat) =~= seq![(48 + n) as u8]);
    } else {
        push_decimal(out, n / 10);
        out.push((48 + n % 10) as u8);
        assert(old(out)@ + decimal(n as nat) =~= old(out)@ + decimal((n / 10) as nat) + seq![(48 + n % 10) as u8]);
    }
}

/// Append `s`.
pub fn push_bytes(out: &mut Vec<u8>, s: &[u8])
    ensures
        final(out)@ == old(out)@ + s@,
{
    let ghost o = out@;
    let mut i: usize = 0;
    while i < s.len()
        invariant
            i <= s@.len(),
            out@ == o + s@.take(i as int),
        decreases s.len() - i,
    {
        out.push(s[i]);
        assert(s@.take(i + 1) =~= s@.take(i as int).push(s@[i as int]));
        assert(o + s@.take(i + 1) =~= (o + s@.take(i as int)).push(s@[i as int]));
        i += 1;
    }
    assert(s@.take(s@.len() as int) =~= s@);
}

/// `n` spaces.
pub open spec fn spaces(n: int) -> Seq<u8> {
    Seq::new(if n > 0 { n as nat } else { 0 }, |i: int| 32u8)
}

/// Append `n` spaces.
pub fn push_spaces(out: &mut Vec<u8>, n: usize)
    ensures
        final(out)@ == old(out)@ + spaces(n as int),
{
    let ghost o = out@;
    let mut i: usize = 0;
    while i < n
        invariant
            i <= n,
            out@ == o + spaces(i as int),
        decreases n - i,
    {
        out.push(32u8);
        assert(o + spaces(i + 1) =~= (o + spaces(i as int)).push(32u8));
        i += 1;
    }
}

/// The JSON escape of one byte of UTF-8 text: `"`, `\`, newline, carriage
/// return and tab get backslash escapes, other control bytes `\u00XX`
/// (lower-case hex); every other byte is itself.
pub open spec fn json_escape_byte(b: u8) -> Seq<u8> {
    if b == 34u8 {
        seq![92u8, 34u8]
    } else if b == 92u8 {
        seq![92u8, 92u8]
    } else if b == 10u8 {
        seq![92u8, 110u8]
    } else if b == 13u8 {
        seq![92u8, 114u8]
    } else if b == 9u8 {
        seq![92u8, 116u8]
    } else if b < 32u8 {
        seq![92u8, 117u8, 48u8, 48u8, hex_digit(b / 16), hex_digit(b % 16)]
    } else {
        seq![b]
    }
}

/// A lower-case hexadecimal digit.
pub open spec fn hex_digit(d: u8) -> u8 {
    if d < 10 {
        (48 + d) as u8
    } else {
        (87 + d) as u8
    }
}

/// The JSON escape of UTF-8 text.
pub open spec fn json_escape(s: Seq<u8>) -> Seq<u8>
    decreases s.len(),
{
    if s.len() == 0 {
        Seq::empty()
    } else {
        json_escape(s.drop_last()) + json_escape_byte(s.last())
    }
}

/// Append the JSON escape of `bytes` read as text (invalid UTF-8 replaced,
/// as by `String::from_utf8_lossy`), without the surrounding quotes.
pub fn write_json_string(out: &mut Vec<u8>, bytes: &[u8])
    ensures
        final(out)@ == old(out)@ + json_escape(utf8_lossy(bytes@)),
{
    let s = lossy(bytes);
    let ghost o = out@;
    let mut i: usize = 0;
    while i < s.len()
        invariant
            i <= s@.len(),
            out@ == o + json_escape(s@.take(i as int)),
        decreases s.len() - i,
    {
        let b = s[i];
        if b == 34 {
            out.push(92);
            out.push(34);
        } else if b == 92 {
            out.push(92);
            out.push(92);
        } else if b == 10 {
            out.push(92);
            out.push(110);
        } else if b == 13 {
            out.push(92);
            out.push(114);
        } else if b == 9 {
            out.push(92);
            out.push(116);
        } else if b < 32 {
            out.push(92);
            out.push(117);
            out.push(48);
            out.push(48);
            let hi = b / 16;
            let lo = b % 16;
            out.push(if hi < 10 { 48 + hi } else { 87 + hi });
            out.push(if lo < 10 { 48 + lo } else { 87 + lo });
        } else {
            out.push(b);
        }
        proof {
            assert(s@.take(i + 1).drop_last() =~= s@.take(i as int));
            assert(out@ =~= o + json_escape(s@.take(i as int)) + json_escape_byte(b));
        }
        i += 1;
    }
    assert(s@.take(s@.len() as int) =~= s@);
}

/// The row a string fills in CSV: quoted, with inner quotes doubled, when
/// it holds a comma, a quote or a newline; as is otherwise.
pub open spec fn csv_escape_spec(s: Seq<u8>) -> Seq<u8> {
    if s.contains(44u8) || s.contains(34u8) || s.contains(10u8) {
        seq![34u8] + double_quotes(s) + seq![34u8]
    } else {
        s
    }
}

/// `s` with every `"` doubled.
pub open spec fn double_quotes(s: Seq<u8>) -> Seq<u8>
    decreases s.len(),
{
    if s.len() == 0 {
        Seq::empty()
    } else {
        double_quotes(s.drop_last()) + (if s.last() == 34u8 {
            seq![34u8, 34u8]
        } else {
            seq![s.last()]
        })
    }
}

/// Append the CSV form of `s` (see [`csv_escape_spec`]).
pub fn csv_escape(out: &mut Vec<u8>, s: &[u8])
    ensures
        final(out)@ == old(out)@ + csv_escape_spec(s@),
{
    let mut special = false;
    let mut i: usize = 0;
    while i < s.len()
        invariant
            i <= s@.len(),
            special == (s@.take(i as int).contains(44u8) || s@.take(i as int).contains(34u8) || s@.take(
                i as int,
            ).contains(10u8)),
        decreases s.len() - i,
    {
        let b = s[i];
        proof {
            let t = s@.take(i as int);
            let t1 = s@.take(i + 1);
            assert(t1 =~= t.push(b));
            assert forall|c: u8| t1.contains(c) <==> (t.contains(c) || c == b) by {
                if t1.contains(c) {
                    let k = choose|k: int| 0 <= k < t1.len() && t1[k] == c;
                    if k < t.len() {
                        assert(t[k] == c);
                    }
                }
                if t.contains(c) {
                    let k = choose|k: int| 0 <= k < t.len() && t[k] == c;
                    assert(t1[k] == c);
                }
                if c == b {
                    assert(t1[i as int] == c);
                }
            }
        }
        if b == 44 || b == 34 || b == 10 {
            special = true;
        }
        i += 1;
    }
    assert(s@.take(s@.len() as int) =~= s@);
    if !special {
        push_bytes(out, s);
        return;
    }
    let ghost o = out@;
    out.push(34);
    let mut j: usize = 0;
    while j < s.len()
        invariant
            j <= s@.len(),
            out@ == o + seq![34u8] + double_quotes(s@.take(j as int)),
        decreases s.len() - j,
    {
        let b = s[j];
        if b == 34 {
            out.push(34);
            out.push(34);
        } else {
            out.push(b);
        }
        proof {
            assert(s@.take(j + 1).drop_last() =~= s@.take(j as int));
            assert(out@ =~= o + seq![34u8] + double_quotes(s@.take(j + 1)));
        }
        j += 1;
    }
    out.push(34);
    assert(s@.take(s@.len() as int) =~= s@);
    assert(out@ =~= o + csv_escape_spec(s@));
}


/// The bytes of an optional name, nothing when absent.
pub open spec fn opt_str_bytes(s: Option<&str>) -> Seq<u8> {
    match s {
        Some(n) => str_bytes(n),
        None => Seq::empty(),
    }
}

/// `s` right-aligned in a column of `w` bytes.
pub open spec fn pad_left(s: Seq<u8>, w: nat) -> Seq<u8> {
    spaces(w - s.len()) + s
}

/// `s` left-aligned in a column of `w` bytes.
pub open spec fn pad_right(s: Seq<u8>, w: nat) -> Seq<u8> {
    s + spaces(w - s.len())
}

/// The length of the longest field name, `0` when no field has one.
pub open spec fn name_width(fields: Seq<ResolvedField>) -> nat
    decreases fields.len(),
{
    if fields.len() == 0 {
        0
    } else {
        let rest = name_width(fields.drop_last());
        let n = opt_str_bytes(fields.last().name).len();
        if n > rest {
            n
        } else {
            rest
        }
    }
}

/// One line of the pretty table:
/// `"  " tag(right, 5) "  " name(left, width) " = " value [" (" label ")"] "\n"`,
/// with `?` for a field without a name and the value read as text.
pub open spec fn pretty_field_line(f: ResolvedField, width: nat) -> Seq<u8> {
    let name = match f.name {
        Some(n) => str_bytes(n),
        None => str_bytes("?"),
    };
    str_bytes("  ") + pad_left(decimal(f.tag as nat), 5) + str_bytes("  ") + pad_right(name, width)
        + str_bytes(" = ") + utf8_lossy(f.value@) + match f.value_label {
        Some(l) => str_bytes(" (") + str_bytes(l) + str_bytes(")"),
        None => Seq::empty(),
    } + str_bytes("\n")
}

/// The table lines of `fields`, all padded to `width`.
pub open spec fn pretty_field_lines(fields: Seq<ResolvedField>, width: nat) -> Seq<u8>
    decreases fields.len(),
{
    if fields.len() == 0 {
        Seq::empty()
    } else {
        pretty_field_lines(fields.drop_last(), width) + pretty_field_line(fields.last(), width)
    }
}

/// The pretty block of a message: a header
/// `Message @ offset <offset> (<raw_len> bytes)[ <msg type name>]`, one
/// table line per field, and a blank line.
pub open spec fn pretty_block(msg: ResolvedMessage, raw_len: nat) -> Seq<u8> {
    pretty_header(msg, raw_len) + pretty_field_lines(msg.fields@, name_width(msg.fields@)) + str_bytes("\n")
}

/// Append `s` aligned to the right of a `w`-byte column.
fn push_padded_left(out: &mut Vec<u8>, s: &[u8], w: usize)
    ensures
        final(out)@ == old(out)@ + pad_left(s@, w as nat),
{
    if s.len() < w {
        push_spaces(out, w - s.len());
    } else {
        push_spaces(out, 0);
    }
    push_bytes(out, s);
    assert(old(out)@ + pad_left(s@, w as nat) =~= old(out)@ + spaces(w - s@.len()) + s@);
}

/// Append `s` aligned to the left of a `w`-byte column.
fn push_padded_right(out: &mut Vec<u8>, s: &[u8], w: usize)
    ensures
        final(out)@ == old(out)@ + pad_right(s@, w as nat),
{
    push_bytes(out, s);
    if s.len() < w {
        push_spaces(out, w - s.len());
    } else {
        push_spaces(out, 0);
    }
    assert(old(out)@ + pad_right(s@, w as nat) =~= old(out)@ + s@ + spaces(w - s@.len()));
}

/// The decimal digits of `n`, as bytes.
fn decimal_bytes(n: u64) -> (r: Vec<u8>)
    ensures
        r@ == decimal(n as nat),
{
    let mut v: Vec<u8> = Vec::new();
    push_decimal(&mut v, n);
    assert(v@ =~= decimal(n as nat));
    v
}

/// Append one line of the pretty table for `f`.
fn write_pretty_field(out: &mut Vec<u8>, f: &ResolvedField, width: usize)
    ensures
        final(out)@ == old(out)@ + pretty_field_line(*f, width as nat),
{
    push_bytes(out, "  ".as_bytes());
    let digits = decimal_bytes(f.tag as u64);
    push_padded_left(out, digits.as_slice(), 5);
    push_bytes(out, "  ".as_bytes());
    let name: &str = match f.name {
        Some(n) => n,
        None => "?",
    };
    push_padded_right(out, name.as_bytes(), width);
    push_bytes(out, " = ".as_bytes());
    let v = lossy(f.value);
    push_bytes(out, v.as_slice());
    match f.value_label {
        Some(l) => {
            push_bytes(out, " (".as_bytes());
            push_bytes(out, l.as_bytes());
            push_bytes(out, ")".as_bytes());
        },
        None => {},
    }
    push_bytes(out, "\n".as_bytes());
    assert(out@ =~= old(out)@ + pretty_field_line(*f, width as nat));
}


/// The header line of a pretty block.
pub open spec fn pretty_header(msg: ResolvedMessage, raw_len: nat) -> Seq<u8> {
    str_bytes("Message @ offset ") + decimal(msg.offset as nat) + str_bytes(" (") + decimal(raw_len)
        + str_bytes(" bytes)") + match msg.msg_type_name {
        Some(n) => str_bytes(" ") + str_bytes(n),
        None => Seq::empty(),
    } + str_bytes("\n")
}

/// Append the header line of a pretty block.
fn write_pretty_header(out: &mut Vec<u8>, msg: &ResolvedMessage, raw_len: usize)
    ensures
        final(out)@ == old(out)@ + pretty_header(*msg, raw_len as nat),
{
    push_bytes(out, "Message @ offset ".as_bytes());
    push_decimal(out, msg.offset);
    push_bytes(out, " (".as_bytes());
    push_decimal(out, raw_len as u64);
    push_bytes(out, " bytes)".as_bytes());
    match msg.msg_type_name {
        Some(n) => {
            push_bytes(out, " ".as_bytes());
            push_bytes(out, n.as_bytes());
        },
        None => {},
    }
    push_bytes(out, "\n".as_bytes());
    assert(out@ =~= old(out)@ + pretty_header(*msg, raw_len as nat));
}

/// The length of the longest name among `fields`.
fn longest_name(fields: &Vec<ResolvedField>) -> (w: usize)
    ensures
        w == name_width(fields@),
{
    let mut width: usize = 0;
    let mut i: usize = 0;
    while i < fields.len()
        invariant
            i <= fields@.len(),
            width == name_width(fields@.take(i as int)),
        decreases fields.len() - i,
    {
        let n: usize = match fields[i].name {
            Some(nm) => nm.as_bytes().len(),
            None => 0,
        };
        assert(fields@.take(i + 1).drop_last() =~= fields@.take(i as int));
        assert(fields@.take(i + 1).last() == fields@[i as int]);
        assert(n == opt_str_bytes(fields@[i as int].name).len());
        if n > width {
            width = n;
        }
        i += 1;
    }
    assert(fields@.take(fields@.len() as int) =~= fields@);
    width
}

/// Write a resolved message as a human-readable table block: a header with
/// the offset, `raw_len` and the message type name, one aligned line per
/// field (names padded to the longest name of the message), and a blank
/// line that separates it from the next block.
pub fn write_pretty(out: &mut Vec<u8>, msg: &ResolvedMessage, raw_len: usize)
    ensures
        final(out)@ == old(out)@ + pretty_block(*msg, raw_len as nat),
{
    write_pretty_header(out, msg, raw_len);
    let ghost head = out@;
    let fields = &msg.fields;
    let width = longest_name(fields);
    let mut j: usize = 0;
    while j < fields.len()
        invariant
            j <= fields@.len(),
            width == name_width(fields@),
            out@ == head + pretty_field_lines(fields@.take(j as int), width as nat),
        decreases fields.len() - j,
    {
        write_pretty_field(out, &fields[j], width);
        assert(fields@.take(j + 1).drop_last() =~= fields@.take(j as int));
        j += 1;
    }
    assert(fields@.take(fields@.len() as int) =~= fields@);
    push_bytes(out, "\n".as_bytes());
    assert(out@ =~= old(out)@ + pretty_block(*msg, raw_len as nat));
}

/// The JSON text of an optional name: `"name":"<escaped>",` or
/// `"name":null,`.
pub open spec fn json_name(n: Option<&str>) -> Seq<u8> {
    match n {
        Some(s) => str_bytes("\"name\":\"") + json_escape(utf8_lossy(str_bytes(s))) + str_bytes("\","),
        None => str_bytes("\"name\":null,"),
    }
}

/// The JSON object of one field:
/// `{"tag":<tag>,"name":...,"value":"<value>"[,"value_label":"<label>"]}`.
pub open spec fn json_field(f: ResolvedField) -> Seq<u8> {
    str_bytes("{\"tag\":") + decimal(f.tag as nat) + str_bytes(",") + json_name(f.name) + str_bytes(
        "\"value\":\"",
    ) + json_escape(utf8_lossy(f.value@)) + str_bytes("\"") + json_label(f.value_label) + str_bytes("}")
}

/// The field objects of `fields`, separated by commas.
pub open spec fn json_fields(fields: Seq<ResolvedField>) -> Seq<u8>
    decreases fields.len(),
{
    if fields.len() == 0 {
        Seq::empty()
    } else if fields.len() == 1 {
        json_field(fields[0])
    } else {
        json_fields(fields.drop_last()) + str_bytes(",") + json_field(fields.last())
    }
}

/// The JSON line of a message:
/// `{"offset":<offset>,"raw_len":<raw_len>[,"msg_type_name":"<name>"],"tags":[...]}`
/// and a newline.
pub open spec fn json_line(msg: ResolvedMessage, raw_len: nat) -> Seq<u8> {
    str_bytes("{\"offset\":") + decimal(msg.offset as nat) + str_bytes(",\"raw_len\":") + decimal(raw_len)
        + match msg.msg_type_name {
        Some(n) => str_bytes(",\"msg_type_name\":\"") + json_escape(utf8_lossy(str_bytes(n))) + str_bytes(
            "\"",
        ),
        None => Seq::empty(),
    } + str_bytes(",\"tags\":[") + json_fields(msg.fields@) + str_bytes("]}\n")
}

/// Append the `name` member of a field object.
fn write_json_name(out: &mut Vec<u8>, name: Option<&str>)
    ensures
        final(out)@ == old(out)@ + json_name(name),
{
    match name {
        Some(n) => {
            push_bytes(out, "\"name\":\"".as_bytes());
            write_json_string(out, n.as_bytes());
            push_bytes(out, "\",".as_bytes());
        },
        None => {
            push_bytes(out, "\"name\":null,".as_bytes());
        },
    }
    assert(out@ =~= old(out)@ + json_name(name));
}

/// The optional `value_label` member of a field object.
pub open spec fn json_label(label: Option<&str>) -> Seq<u8> {
    match label {
        Some(l) => str_bytes(",\"value_label\":\"") + json_escape(utf8_lossy(str_bytes(l))) + str_bytes(
            "\"",
        ),
        None => Seq::empty(),
    }
}

/// Append the optional `value_label` member of a field object.
fn write_json_label(out: &mut Vec<u8>, label: Option<&str>)
    ensures
        final(out)@ == old(out)@ + json_label(label),
{
    match label {
        Some(l) => {
            push_bytes(out, ",\"value_label\":\"".as_bytes());
            write_json_string(out, l.as_bytes());
            push_bytes(out, "\"".as_bytes());
        },
        None => {},
    }
    assert(out@ =~= old(out)@ + json_label(label));
}

/// Append the JSON object of one field.
fn write_json_field(out: &mut Vec<u8>, f: &ResolvedField)
    ensures
        final(out)@ == old(out)@ + json_field(*f),
{
    push_bytes(out, "{\"tag\":".as_bytes());
    push_decimal(out, f.tag as u64);
    push_bytes(out, ",".as_bytes());
    write_json_name(out, f.name);
    push_bytes(out, "\"value\":\"".as_bytes());
    write_json_string(out, f.value);
    push_bytes(out, "\"".as_bytes());
    write_json_label(out, f.value_label);
    push_bytes(out, "}".as_bytes());
    assert(out@ =~= old(out)@ + json_field(*f));
}

/// Write a resolved message as one JSON line with the keys `offset`,
/// `raw_len`, `msg_type_name` (when the type is known) and `tags`.
#[verifier::rlimit(40)]
pub fn write_jsonl(out: &mut Vec<u8>, msg: &ResolvedMessage, raw_len: usize)
    ensures
        final(out)@ == old(out)@ + json_line(*msg, raw_len as nat),
{
    push_bytes(out, "{\"offset\":".as_bytes());
    push_decimal(out, msg.offset);
    push_bytes(out, ",\"raw_len\":".as_bytes());
    push_decimal(out, raw_len as u64);
    match msg.msg_type_name {
        Some(n) => {
            push_bytes(out, ",\"msg_type_name\":\"".as_bytes());
            write_json_string(out, n.as_bytes());
            push_bytes(out, "\"".as_bytes());
        },
        None => {},
    }
    push_bytes(out, ",\"tags\":[".as_bytes());
    let ghost head = out@;
    let fields = &msg.fields;
    let mut i: usize = 0;
    while i < fields.len()
        invariant
            i <= fields@.len(),
            out@ == head + json_fields(fields@.take(i as int)),
        decreases fields.len() - i,
    {
        if i > 0 {
            push_bytes(out, ",".as_bytes());
        }
        write_json_field(out, &fields[i]);
        proof {
            let t = fields@.take(i + 1);
            assert(t.drop_last() =~= fields@.take(i as int));
            if i == 0 {
                assert(json_fields(t) == json_field(fields@[0]));
                assert(json_fields(fields@.take(0)) =~= Seq::<u8>::empty());
            }
        }
        i += 1;
    }
    assert(fields@.take(fields@.len() as int) =~= fields@);
    push_bytes(out, "]}\n".as_bytes());
    assert(out@ =~= old(out)@ + json_line(*msg, raw_len as nat));
}

/// Write the raw message bytes and a newline.
pub fn write_fix(out: &mut Vec<u8>, bytes: &[u8])
    ensures
        final(out)@ == old(out)@ + bytes@ + str_bytes("\n"),
{
    push_bytes(out, bytes);
    push_bytes(out, "\n".as_bytes());
}

/// Write the header row of the CSV export.
pub fn write_csv_header(out: &mut Vec<u8>)
    ensures
        final(out)@ == old(out)@ + str_bytes("ordinal,offset,msg_type,sender,target,seq_num,sending_time\n"),
{
    push_bytes(out, "ordinal,offset,msg_type,sender,target,seq_num,sending_time\n".as_bytes());
}

/// The text of the first value of `tag`, empty when the tag is absent.
pub open spec fn csv_value(msg: RawMessage, tag: u32) -> Seq<u8> {
    match first_value(fields_of(msg), tag) {
        Some(v) => utf8_lossy(v),
        None => Seq::empty(),
    }
}

/// A text column of a CSV row: a comma, then the escaped text of the first
/// value of `tag`.
pub open spec fn csv_column(msg: RawMessage, tag: u32) -> Seq<u8> {
    str_bytes(",") + csv_escape_spec(csv_value(msg, tag))
}

/// One CSV row:
/// `ordinal,offset,msg_type,sender,target,seq_num,sending_time` and a newline,
/// each text column escaped (see [`csv_escape_spec`]).
pub open spec fn csv_row(ordinal: nat, offset: nat, msg: RawMessage) -> Seq<u8> {
    decimal(ordinal) + str_bytes(",") + decimal(offset) + csv_column(msg, TAG_MSG_TYPE) + csv_column(
        msg,
        TAG_SENDER_COMP_ID,
    ) + csv_column(msg, TAG_TARGET_COMP_ID) + csv_column(msg, TAG_MSG_SEQ_NUM) + csv_column(
        msg,
        TAG_SENDING_TIME,
    ) + str_bytes("\n")
}

/// Append a comma and the escaped text of the first value of `tag`.
fn write_csv_column(out: &mut Vec<u8>, msg: &RawMessage, tag: u32)
    ensures
        final(out)@ == old(out)@ + csv_column(*msg, tag),
{
    push_bytes(out, ",".as_bytes());
    match find_tag(msg, tag) {
        Some(v) => {
            let text = lossy(v);
            csv_escape(out, text.as_slice());
        },
        None => {
            let empty: Vec<u8> = Vec::new();
            assert(empty@ =~= csv_value(*msg, tag));
            csv_escape(out, empty.as_slice());
        },
    }
    assert(out@ =~= old(out)@ + csv_column(*msg, tag));
}

/// Write one CSV row summarising a raw message: the ordinal and offset the
/// caller passes, then the first values of MsgType, SenderCompID,
/// TargetCompID, MsgSeqNum and SendingTime read as text (empty when
/// absent), each escaped.
pub fn write_csv_row(out: &mut Vec<u8>, ordinal: u32, offset: u64, msg: &RawMessage)
    ensures
        final(out)@ == old(out)@ + csv_row(ordinal as nat, offset as nat, *msg),
{
    let ghost o = out@;
    push_decimal(out, ordinal as u64);
    push_bytes(out, ",".as_bytes());
    push_decimal(out, offset);
    let ghost a = out@;
    assert(a =~= o + (decimal(ordinal as nat) + str_bytes(",") + decimal(offset as nat)));
    write_csv_column(out, msg, TAG_MSG_TYPE);
    write_csv_column(out, msg, TAG_SENDER_COMP_ID);
    let ghost b = out@;
    assert(b =~= a + (csv_column(*msg, TAG_MSG_TYPE) + csv_column(*msg, TAG_SENDER_COMP_ID)));
    write_csv_column(out, msg, TAG_TARGET_COMP_ID);
    write_csv_column(out, msg, TAG_MSG_SEQ_NUM);
    write_csv_column(out, msg, TAG_SENDING_TIME);
    push_bytes(out, "\n".as_bytes());
    let ghost c = out@;
    assert(c =~= b + (csv_column(*msg, TAG_TARGET_COMP_ID) + csv_column(*msg, TAG_MSG_SEQ_NUM) + csv_column(
        *msg,
        TAG_SENDING_TIME,
    ) + str_bytes("\n")));
    assert(out@ =~= old(out)@ + csv_row(ordinal as nat, offset as nat, *msg));
}


// ---------------------------------------------------------------------------
// Renderings seen through the fields' values
// ---------------------------------------------------------------------------
/// What the renderings read of a field: tag, name, value and label.
pub type FieldView = (u32, Option<&'static str>, Seq<u8>, Option<&'static str>);

/// The view of a resolved field.
pub open spec fn field_view(f: ResolvedField) -> FieldView {
    (f.tag, f.name, f.value@, f.value_label)
}

/// The views of resolved fields.
pub open spec fn field_views(fields: Seq<ResolvedField>) -> Seq<FieldView> {
    fields.map_values(|f: ResolvedField| field_view(f))
}

/// [`name_width`] over views.
pub open spec fn name_width_v(vs: Seq<FieldView>) -> nat
    decreases vs.len(),
{
    if vs.len() == 0 {
        0
    } else {
        let rest = name_width_v(vs.drop_last());
        let n = opt_str_bytes(vs.last().1).len();
        if n > rest {
            n
        } else {
            rest
        }
    }
}

/// [`pretty_field_line`] over a view.
pub open spec fn pretty_field_line_v(f: FieldView, width: nat) -> Seq<u8> {
    let name = match f.1 {
        Some(n) => str_bytes(n),
        None => str_bytes("?"),
    };
    str_bytes("  ") + pad_left(decimal(f.0 as nat), 5) + str_bytes("  ") + pad_right(name, width) + str_bytes(
        " = ",
    ) + utf8_lossy(f.2) + match f.3 {
        Some(l) => str_bytes(" (") + str_bytes(l) + str_bytes(")"),
        None => Seq::empty(),
    } + str_bytes("\n")
}

/// [`pretty_field_lines`] over views.
pub open spec fn pretty_field_lines_v(vs: Seq<FieldView>, width: nat) -> Seq<u8>
    decreases vs.len(),
{
    if vs.len() == 0 {
        Seq::empty()
    } else {
        pretty_field_lines_v(vs.drop_last(), width) + pretty_field_line_v(vs.last(), width)
    }
}

/// [`json_field`] over a view.
pub open spec fn json_field_v(f: FieldView) -> Seq<u8> {
    str_bytes("{\"tag\":") + decimal(f.0 as nat) + str_bytes(",") + json_name(f.1) + str_bytes("\"value\":\"")
        + json_escape(utf8_lossy(f.2)) + str_bytes("\"") + json_label(f.3) + str_bytes("}")
}

/// [`json_fields`] over views.
pub open spec fn json_fields_v(vs: Seq<FieldView>) -> Seq<u8>
    decreases vs.len(),
{
    if vs.len() == 0 {
        Seq::empty()
    } else if vs.len() == 1 {
        json_field_v(vs[0])
    } else {
        json_fields_v(vs.drop_last()) + str_bytes(",") + json_field_v(vs.last())
    }
}

/// The pretty block of a message with the given offset, type name and
/// field views.
pub open spec fn pretty_block_v(offset: u64, mt_name: Option<&'static str>, vs: Seq<FieldView>, raw_len: nat) -> Seq<
    u8,
> {
    str_bytes("Message @ offset ") + decimal(offset as nat) + str_bytes(" (") + decimal(raw_len) + str_bytes(
        " bytes)",
    ) + match mt_name {
        Some(n) => str_bytes(" ") + str_bytes(n),
        None => Seq::empty(),
    } + str_bytes("\n") + pretty_field_lines_v(vs, name_width_v(vs)) + str_bytes("\n")
}

/// The JSON line of a message with the given offset, type name and field
/// views.
pub open spec fn json_line_v(offset: u64, mt_name: Option<&'static str>, vs: Seq<FieldView>, raw_len: nat) -> Seq<
    u8,
> {
    str_bytes("{\"offset\":") + decimal(offset as nat) + str_bytes(",\"raw_len\":") + decimal(raw_len) + match mt_name {
        Some(n) => str_bytes(",\"msg_type_name\":\"") + json_escape(utf8_lossy(str_bytes(n))) + str_bytes("\""),
        None => Seq::empty(),
    } + str_bytes(",\"tags\":[") + json_fields_v(vs) + str_bytes("]}\n")
}

/// The renderings of resolved fields depend on their views alone.
pub proof fn lemma_field_views(fields: Seq<ResolvedField>, width: nat)
    ensures
        name_width(fields) == name_width_v(field_views(fields)),
        pretty_field_lines(fields, width) == pretty_field_lines_v(field_views(fields), width),
        json_fields(fields) == json_fields_v(field_views(fields)),
    decreases fields.len(),
{
    let vs = field_views(fields);
    if fields.len() > 0 {
        assert(field_views(fields.drop_last()) =~= vs.drop_last());
        assert(vs.last() == field_view(fields.last()));
        lemma_field_views(fields.drop_last(), width);
        if fields.len() == 1 {
            assert(vs[0] == field_view(fields[0]));
        }
    }
}

/// The pretty block and the JSON line of a message, through its views.
pub proof fn lemma_message_views(msg: ResolvedMessage, raw_len: nat)
    ensures
        pretty_block(msg, raw_len) == pretty_block_v(msg.offset, msg.msg_type_name, field_views(msg.fields@), raw_len),
        json_line(msg, raw_len) == json_line_v(msg.offset, msg.msg_type_name, field_views(msg.fields@), raw_len),
{
    lemma_field_views(msg.fields@, name_width(msg.fields@));
    assert(pretty_block(msg, raw_len) =~= pretty_block_v(msg.offset, msg.msg_type_name, field_views(msg.fields@), raw_len));
    assert(json_line(msg, raw_len) =~= json_line_v(msg.offset, msg.msg_type_name, field_views(msg.fields@), raw_len));
}

} // verus!
