//! Small text forms shared by the reports: grouped integers, truncated
//! columns, side and status names, and the family of an order.
use vstd::prelude::*;
use vstd::string::StrSliceExecFns;

use crate::analysis::sets::{bytes_lt, lex_lt};
use crate::dict::{CHAIN_FIX44, chain_enum, chain_enum_value_label};
use crate::bytes::string_from_utf8;
use crate::render::{decimal, lossy, push_bytes, push_decimal, push_spaces, spaces, str_bytes, utf8_lossy};

verus! {

/// The digits of `d` up to position `k`, with a comma before each digit
/// (but the first) that stands a multiple of three places from the end.
pub open spec fn grouped_prefix(d: Seq<u8>, k: int) -> Seq<u8>
    decreases k,
{
    if k <= 0 {
        Seq::empty()
    } else {
        grouped_prefix(d, k - 1) + if k - 1 > 0 && (d.len() - (k - 1)) % 3 == 0 {
            seq![44u8, d[k - 1]]
        } else {
            seq![d[k - 1]]
        }
    }
}

/// `n` in decimal with thousands separated by commas (`1234567` is
/// `1,234,567`).
pub open spec fn grouped_int(n: nat) -> Seq<u8> {
    grouped_prefix(decimal(n), decimal(n).len() as int)
}

/// `n` in decimal with thousands separated by commas.
pub fn fmt_int(n: u64) -> (r: Vec<u8>)
    ensures
        r@ == grouped_int(n as nat),
{
    let mut digits: Vec<u8> = Vec::new();
    push_decimal(&mut digits, n);
    assert(digits@ =~= decimal(n as nat));
    let len = digits.len();
    let mut out: Vec<u8> = Vec::new();
    let mut i: usize = 0;
    while i < len
        invariant
            i <= len,
            len == digits@.len(),
            out@ == grouped_prefix(digits@, i as int),
        decreases len - i,
    {
        if i > 0 && (len - i) % 3 == 0 {
            out.push(44u8);
        }
        out.push(digits[i]);
        assert(out@ =~= grouped_prefix(digits@, i + 1));
        i += 1;
    }
    out
}

/// The name of a Side (tag 54) value.
pub open spec fn side_name(b: u8) -> &'static str {
    if b == 49 {
        "BUY"
    } else if b == 50 {
        "SELL"
    } else if b == 51 {
        "BUYM"
    } else if b == 52 {
        "SELLS"
    } else if b == 53 {
        "SELLSE"
    } else if b == 54 {
        "SELLSX"
    } else if b == 55 {
        "UNDISC"
    } else if b == 56 {
        "CROSS"
    } else if b == 57 {
        "CROSSS"
    } else {
        "?"
    }
}

/// The name of a Side (tag 54) value: `BUY`, `SELL`, ..., `?` when unknown.
pub fn side_label(b: u8) -> (r: &'static str)
    ensures
        r == side_name(b),
{
    if b == 49 {
        "BUY"
    } else if b == 50 {
        "SELL"
    } else if b == 51 {
        "BUYM"
    } else if b == 52 {
        "SELLS"
    } else if b == 53 {
        "SELLSE"
    } else if b == 54 {
        "SELLSX"
    } else if b == 55 {
        "UNDISC"
    } else if b == 56 {
        "CROSS"
    } else if b == 57 {
        "CROSSS"
    } else {
        "?"
    }
}

/// The text of an OrdStatus (tag 39) value: its FIX 4.4 label, or the
/// value itself read as text when the dictionary has none.
pub open spec fn status_text(v: Seq<u8>) -> Seq<u8> {
    match chain_enum(CHAIN_FIX44@, 39, v) {
        Some(l) => str_bytes(l),
        None => utf8_lossy(v),
    }
}

/// The text of an OrdStatus (tag 39) value.
pub fn status_label(v: &[u8]) -> (r: Vec<u8>)
    ensures
        r@ == status_text(v@),
{
    let chain: &[crate::dict::FixVersion] = &CHAIN_FIX44;
    match chain_enum_value_label(chain, 39, v) {
        Some(l) => {
            let mut out: Vec<u8> = Vec::new();
            push_bytes(&mut out, l.as_bytes());
            assert(out@ =~= str_bytes(l));
            out
        },
        None => lossy(v),
    }
}

/// `s` cut to `max` characters: unchanged when it fits, else its first
/// `max - 1` characters and an ellipsis.
pub open spec fn truncated(s: Seq<char>, max: nat) -> Seq<char> {
    if s.len() <= max {
        s
    } else {
        s.take(if max > 0 { max - 1 } else { 0 }) + seq!['\u{2026}']
    }
}

/// `s` cut to `max_chars` characters (see [`truncated`]).
pub fn truncate(s: &str, max_chars: usize) -> (r: String)
    ensures
        r@ == truncated(s@, max_chars as nat),
{
    let n = s.unicode_len();
    if n <= max_chars {
        return s.to_owned();
    }
    let keep = if max_chars > 0 {
        max_chars - 1
    } else {
        0
    };
    let head = s.substring_char(0, keep);
    let mut out = String::from_str(head);
    let ellipsis = "\u{2026}";
    proof {
        reveal_strlit("\u{2026}");
    }
    out.append(ellipsis);
    assert(out@ =~= truncated(s@, max_chars as nat));
    out
}

/// `a` comes before `b` or equals it, byte by byte.
pub open spec fn lex_le(a: Seq<u8>, b: Seq<u8>) -> bool {
    a == b || lex_lt(a, b)
}

/// The views of a vector of byte strings.
pub open spec fn views(v: Seq<Vec<u8>>) -> Seq<Seq<u8>> {
    v.map_values(|x: Vec<u8>| x@)
}

/// `s` is in non-decreasing lexicographic order.
pub open spec fn sorted_le(s: Seq<Seq<u8>>) -> bool {
    forall|i: int, j: int| 0 <= i < j < s.len() ==> lex_le(s[i], s[j])
}

/// Sort byte strings in lexicographic order, keeping duplicates.
pub fn sort_texts(v: Vec<Vec<u8>>) -> (r: Vec<Vec<u8>>)
    ensures
        sorted_le(views(r@)),
        views(r@).to_multiset() == views(v@).to_multiset(),
{
    let mut out: Vec<Vec<u8>> = Vec::new();
    let mut rest = v;
    let ghost all = views(rest@);
    let mut k: usize = 0;
    let n = rest.len();
    assert(views(out@) =~= Seq::<Seq<u8>>::empty());
    assert(all.take(0) =~= Seq::<Seq<u8>>::empty());
    while k < n
        invariant
            k <= n,
            n == rest@.len(),
            all == views(rest@),
            sorted_le(views(out@)),
            views(out@).to_multiset() == all.take(k as int).to_multiset(),
        decreases n - k,
    {
        let x = crate::bytes::copy_bytes(rest[k].as_slice());
        assert(x@ == all[k as int]);
        let mut i: usize = 0;
        while i < out.len() && !bytes_lt(x.as_slice(), out[i].as_slice())
            invariant
                i <= out@.len(),
                forall|j: int| 0 <= j < i ==> !lex_lt(x@, (#[trigger] out@[j])@),
            decreases out@.len() - i,
        {
            i += 1;
        }
        let ghost before = out@;
        out.insert(i, x);
        proof {
            assert(views(out@) =~= views(before).insert(i as int, x@));
            vstd::seq_lib::to_multiset_insert(views(before), i as int, x@);
            assert(all.take(k + 1) =~= all.take(k as int).push(x@));
            vstd::seq_lib::to_multiset_build(all.take(k as int), x@);
            assert(views(before).insert(i as int, x@).to_multiset() =~= views(before).to_multiset().insert(x@));
            assert forall|a: int, b: int| 0 <= a < b < out@.len() implies lex_le(
                views(out@)[a],
                views(out@)[b],
            ) by {
                crate::analysis::sets::lemma_lex_total(x@, before[a]@);
                if b < i {
                    assert(lex_le(views(before)[a], views(before)[b]));
                } else if a < i && b == i {
                    crate::analysis::sets::lemma_lex_total(before[a]@, x@);
                } else if a < i && b > i {
                    assert(lex_le(views(before)[a], views(before)[b - 1]));
                } else if a == i {
                    if i < before.len() {
                        crate::analysis::sets::lemma_lex_total(x@, before[i as int]@);
                        if b - 1 > i {
                            assert(lex_le(views(before)[i as int], views(before)[b - 1]));
                            lemma_lex_le_trans(x@, before[i as int]@, before[b - 1]@);
                        }
                    }
                } else {
                    assert(lex_le(views(before)[a - 1], views(before)[b - 1]));
                }
            }
        }
        k += 1;
    }
    assert(all.take(n as int) =~= all);
    out
}

/// Lexicographic order is transitive.
proof fn lemma_lex_le_trans(a: Seq<u8>, b: Seq<u8>, c: Seq<u8>)
    requires
        lex_le(a, b),
        lex_le(b, c),
    ensures
        lex_le(a, c),
{
    if a != b && b != c {
        crate::analysis::sets::lemma_lex_trans(a, b, c);
    }
}

/// `parts` joined with `sep`.
pub open spec fn join(parts: Seq<Seq<u8>>, sep: Seq<u8>) -> Seq<u8>
    decreases parts.len(),
{
    if parts.len() == 0 {
        Seq::empty()
    } else if parts.len() == 1 {
        parts[0]
    } else {
        join(parts.drop_last(), sep) + sep + parts.last()
    }
}

/// The texts of the members of a family.
pub open spec fn family_texts(family: Seq<Vec<u8>>) -> Seq<Seq<u8>> {
    Seq::new(family.len(), |i: int| utf8_lossy(family[i]@))
}

/// How an order family is shown: the root's text when the family has at
/// most one member, else the members' texts in lexicographic order joined
/// by `→`.
pub open spec fn family_shown(root: Seq<u8>, family: Seq<Vec<u8>>, r: Seq<u8>) -> bool {
    if family.len() <= 1 {
        r == utf8_lossy(root)
    } else {
        exists|s: Seq<Seq<u8>>|
            sorted_le(s) && s.to_multiset() == family_texts(family).to_multiset() && r == join(
                s,
                str_bytes("\u{2192}"),
            )
    }
}

/// The family of an order as one line of text (see [`family_shown`]).
pub fn family_display(root: &[u8], family: &Vec<Vec<u8>>) -> (r: Vec<u8>)
    ensures
        family_shown(root@, family@, r@),
{
    if family.len() <= 1 {
        return lossy(root);
    }
    let mut texts: Vec<Vec<u8>> = Vec::new();
    let mut i: usize = 0;
    while i < family.len()
        invariant
            i <= family@.len(),
            views(texts@) == family_texts(family@).take(i as int),
            texts@.len() == i,
        decreases family@.len() - i,
    {
        let t = lossy(family[i].as_slice());
        let ghost before = texts@;
        let ghost tv = t@;
        assert(tv == utf8_lossy(family@[i as int]@));
        texts.push(t);
        assert(texts@ == before.push(t));
        assert forall|q: int| 0 <= q < texts@.len() implies views(texts@)[q] == family_texts(family@).take(i + 1)[q] by {
            if q < i {
                assert(views(texts@)[q] == texts@[q]@);
                assert(texts@[q] == before[q]);
                assert(views(before)[q] == before[q]@);
            } else {
                assert(views(texts@)[q] == texts@[q]@);
            }
        }
        assert(views(texts@) =~= family_texts(family@).take(i + 1));
        i += 1;
    }
    assert(family_texts(family@).take(family@.len() as int) =~= family_texts(family@));
    let sorted = sort_texts(texts);
    let arrow = "\u{2192}";
    let mut out: Vec<u8> = Vec::new();
    let mut j: usize = 0;
    while j < sorted.len()
        invariant
            j <= sorted@.len(),
            out@ == join(views(sorted@).take(j as int), str_bytes(arrow)),
        decreases sorted@.len() - j,
    {
        if j > 0 {
            push_bytes(&mut out, arrow.as_bytes());
        }
        push_bytes(&mut out, sorted[j].as_slice());
        proof {
            let t = views(sorted@).take(j + 1);
            assert(t.drop_last() =~= views(sorted@).take(j as int));
            if j == 0 {
                assert(join(views(sorted@).take(0), str_bytes(arrow)) =~= Seq::<u8>::empty());
            }
        }
        j += 1;
    }
    assert(views(sorted@).take(sorted@.len() as int) =~= views(sorted@));
    out
}


/// The text `String::from_utf8_lossy` makes of some bytes, as characters.
pub open spec fn text_of(b: Seq<u8>) -> Seq<char> {
    vstd::utf8::decode_utf8(utf8_lossy(b))
}

/// `s` right-aligned in a column of `w` characters, as `{:>w}` writes it:
/// spaces in front when it is shorter, unchanged otherwise.
pub open spec fn right_col(s: Seq<char>, w: nat) -> Seq<u8> {
    spaces(w - s.len()) + vstd::utf8::encode_utf8(s)
}

/// `s` left-aligned in a column of `w` characters, as `{:<w}` writes it.
pub open spec fn left_col(s: Seq<char>, w: nat) -> Seq<u8> {
    vstd::utf8::encode_utf8(s) + spaces(w - s.len())
}

/// The bytes as text, each invalid UTF-8 sequence replaced by U+FFFD.
pub fn lossy_string(b: &[u8]) -> (r: String)
    ensures
        r@ == text_of(b@),
{
    let v = lossy(b);
    string_from_utf8(v)
}

/// Append `s` right-aligned in a column of `w` characters.
pub fn push_right_col(out: &mut Vec<u8>, s: &str, w: usize)
    ensures
        final(out)@ == old(out)@ + right_col(s@, w as nat),
{
    let n = s.unicode_len();
    if n < w {
        push_spaces(out, w - n);
    } else {
        push_spaces(out, 0);
    }
    push_bytes(out, s.as_bytes());
    assert(out@ =~= old(out)@ + right_col(s@, w as nat));
}

/// Append `s` left-aligned in a column of `w` characters.
pub fn push_left_col(out: &mut Vec<u8>, s: &str, w: usize)
    ensures
        final(out)@ == old(out)@ + left_col(s@, w as nat),
{
    let n = s.unicode_len();
    push_bytes(out, s.as_bytes());
    if n < w {
        push_spaces(out, w - n);
    } else {
        push_spaces(out, 0);
    }
    assert(out@ =~= old(out)@ + left_col(s@, w as nat));
}

/// The characters of bytes that are valid UTF-8; none otherwise.
pub open spec fn as_text(b: Seq<u8>) -> Seq<char> {
    if vstd::utf8::valid_utf8(b) {
        vstd::utf8::decode_utf8(b)
    } else {
        Seq::empty()
    }
}

/// Bytes as a string (see [`as_text`]).
pub fn text_string(b: Vec<u8>) -> (r: String)
    ensures
        r@ == as_text(b@),
{
    string_from_utf8(b)
}

} // verus!
