//! The manifest codec.
//!
//! A collection's manifest is a textual array of records, one per occupied
//! slot: `[{"index":N,"image_filename":"...","preset_filename":"..."},...]`.
//! The writer always emits this canonical form — no whitespace, fields in
//! this order, `"` and `\` escaped with a backslash — and the reader accepts
//! exactly the canonical form, failing with `MalformedManifest` on anything
//! else.  Record order carries no meaning; the slot index is the key.

use vstd::prelude::*;
use crate::types::{PresetEntry, PresetEntryV, PresetError};

verus! {

/// The largest slot index a manifest record can carry.
pub const MAX_SLOT_INDEX: u32 = 0x7fff_ffff;

/// Decimal digit characters.
pub open spec fn spec_digit_char(d: int) -> char {
    if d == 0 { '0' }
    else if d == 1 { '1' }
    else if d == 2 { '2' }
    else if d == 3 { '3' }
    else if d == 4 { '4' }
    else if d == 5 { '5' }
    else if d == 6 { '6' }
    else if d == 7 { '7' }
    else if d == 8 { '8' }
    else { '9' }
}

pub open spec fn spec_is_digit(c: char) -> bool {
    48 <= (c as u32) <= 57
}

pub open spec fn spec_digit_val(c: char) -> int {
    (c as u32) - 48
}

/// The canonical decimal numeral of a non-negative integer: no sign, no
/// leading zero (except the numeral `0` itself).
pub open spec fn spec_dec_nat(n: int) -> Seq<char>
    recommends
        0 <= n,
    decreases n,
{
    if n < 10 {
        seq![spec_digit_char(n)]
    } else {
        spec_dec_nat(n / 10).push(spec_digit_char(n % 10))
    }
}

/// The value of a digit string, most significant first.
pub open spec fn spec_digits_val(s: Seq<char>) -> int
    decreases s.len(),
{
    if s.len() == 0 {
        0
    } else {
        spec_digits_val(s.drop_last()) * 10 + spec_digit_val(s.last())
    }
}

/// How one character appears inside a quoted manifest string: `"` and `\`
/// get a backslash, every other character stands for itself.
pub open spec fn spec_escape_char(c: char) -> Seq<char> {
    if c == '"' || c == '\\' {
        seq!['\\', c]
    } else {
        seq![c]
    }
}

/// The escaped form of a whole string.
pub open spec fn spec_escape(s: Seq<char>) -> Seq<char>
    decreases s.len(),
{
    if s.len() == 0 {
        Seq::empty()
    } else {
        spec_escape_char(s[0]) + spec_escape(s.skip(1))
    }
}

/// A string a manifest can carry: no control characters (they have no
/// escaped form in this codec).
pub open spec fn spec_wf_manifest_string(s: Seq<char>) -> bool {
    forall|i: int| 0 <= i < s.len() ==> (#[trigger] s[i] as u32) >= 0x20
}

/// A record the codec can write and read back: index in the signed 32-bit
/// range, both filenames free of control characters.
pub open spec fn spec_wf_entry(e: PresetEntryV) -> bool {
    &&& 0 <= e.index <= MAX_SLOT_INDEX
    &&& spec_wf_manifest_string(e.image_filename)
    &&& spec_wf_manifest_string(e.preset_filename)
}

/// The fixed fragment opening a record, up to the index value.
pub open spec fn spec_key_index() -> Seq<char> {
    seq!['{', '"', 'i', 'n', 'd', 'e', 'x', '"', ':']
}

/// The fixed fragment between the index and the image filename.
pub open spec fn spec_key_image() -> Seq<char> {
    seq![',', '"', 'i', 'm', 'a', 'g', 'e', '_', 'f', 'i', 'l', 'e', 'n', 'a', 'm', 'e', '"', ':', '"']
}

/// The fixed fragment between the image filename and the preset filename.
pub open spec fn spec_key_preset() -> Seq<char> {
    seq!['"', ',', '"', 'p', 'r', 'e', 's', 'e', 't', '_', 'f', 'i', 'l', 'e', 'n', 'a', 'm', 'e', '"', ':', '"']
}

/// The fixed fragment closing a record.
pub open spec fn spec_key_close() -> Seq<char> {
    seq!['"', '}']
}

/// The canonical text of one record.
pub open spec fn spec_entry_text(e: PresetEntryV) -> Seq<char> {
    spec_key_index() + spec_dec_nat(e.index) + spec_key_image() + spec_escape(e.image_filename)
        + spec_key_preset() + spec_escape(e.preset_filename) + spec_key_close()
}

/// The canonical text of the records, comma-separated.
pub open spec fn spec_entries_text(es: Seq<PresetEntryV>) -> Seq<char>
    decreases es.len(),
{
    if es.len() == 0 {
        Seq::empty()
    } else if es.len() == 1 {
        spec_entry_text(es[0])
    } else {
        spec_entry_text(es[0]) + seq![','] + spec_entries_text(es.skip(1))
    }
}

/// The canonical text of a whole manifest.
pub open spec fn spec_manifest_text(es: Seq<PresetEntryV>) -> Seq<char> {
    seq!['['] + spec_entries_text(es) + seq![']']
}

/// The records of a list of manifest entries.
pub open spec fn entries_view(es: Seq<PresetEntry>) -> Seq<PresetEntryV> {
    es.map_values(|e: PresetEntry| e@)
}

/// All records a codec-written manifest can carry.
pub open spec fn spec_wf_entries(es: Seq<PresetEntryV>) -> bool {
    forall|i: int| 0 <= i < es.len() ==> spec_wf_entry(#[trigger] es[i])
}

// ---------------------------------------------------------------------
// Encoding
// ---------------------------------------------------------------------

/// The character of one decimal digit, as a one-character string.
fn digit_str(d: u32) -> (r: &'static str)
    requires
        d < 10,
    ensures
        r@ == seq![spec_digit_char(d as int)],
{
    proof {
        reveal_strlit("0");
        reveal_strlit("1");
        reveal_strlit("2");
        reveal_strlit("3");
        reveal_strlit("4");
        reveal_strlit("5");
        reveal_strlit("6");
        reveal_strlit("7");
        reveal_strlit("8");
        reveal_strlit("9");
    }
    let r = if d == 0 { "0" }
    else if d == 1 { "1" }
    else if d == 2 { "2" }
    else if d == 3 { "3" }
    else if d == 4 { "4" }
    else if d == 5 { "5" }
    else if d == 6 { "6" }
    else if d == 7 { "7" }
    else { "9" };
    let r = if d == 8 { "8" } else { r };
    proof {
        assert(r@ =~= seq![spec_digit_char(d as int)]);
    }
    r
}

/// Append the canonical decimal numeral of `n`.
pub(crate) fn append_decimal(out: &mut String, n: u32)
    ensures
        final(out)@ == old(out)@ + spec_dec_nat(n as int),
    decreases n,
{
    if n < 10 {
        out.append(digit_str(n));
    } else {
        append_decimal(out, n / 10);
        out.append(digit_str(n % 10));
        proof {
            assert(old(out)@ + spec_dec_nat(n as int / 10) + seq![
                spec_digit_char(n as int % 10),
            ] =~= old(out)@ + spec_dec_nat(n as int));
        }
    }
}

/// Escaping distributes over appending one character.
proof fn lemma_escape_snoc(s: Seq<char>, c: char)
    ensures
        spec_escape(s.push(c)) == spec_escape(s) + spec_escape_char(c),
    decreases s.len(),
{
    if s.len() == 0 {
        assert(s.push(c)[0] == c);
        assert(s.push(c).skip(1) =~= Seq::<char>::empty());
        assert(spec_escape(Seq::<char>::empty()) == Seq::<char>::empty());
        assert(spec_escape(s.push(c)) == spec_escape_char(c) + Seq::<char>::empty());
        assert(spec_escape_char(c) + Seq::<char>::empty() =~= Seq::<char>::empty()
            + spec_escape_char(c));
    } else {
        assert(s.push(c)[0] == s[0]);
        assert(s.push(c).skip(1) =~= s.skip(1).push(c));
        lemma_escape_snoc(s.skip(1), c);
        assert(spec_escape(s.push(c)) == spec_escape_char(s[0]) + (spec_escape(s.skip(1))
            + spec_escape_char(c)));
        assert(spec_escape_char(s[0]) + (spec_escape(s.skip(1)) + spec_escape_char(c))
            =~= (spec_escape_char(s[0]) + spec_escape(s.skip(1))) + spec_escape_char(c));
    }
}

/// Append the escaped form of `s`.
fn append_escaped(out: &mut String, s: &str)
    ensures
        final(out)@ == old(out)@ + spec_escape(s@),
{
    let n = s.unicode_len();
    let mut i: usize = 0;
    proof {
        assert(s@.take(0) =~= Seq::<char>::empty());
        assert(old(out)@ + Seq::<char>::empty() =~= old(out)@);
    }
    while i < n
        invariant
            n == s@.len(),
            i <= n,
            out@ == old(out)@ + spec_escape(s@.take(i as int)),
        decreases n - i,
    {
        let c = s.get_char(i);
        if c == '"' {
            proof {
                reveal_strlit("\\\"");
            }
            out.append("\\\"");
            proof {
                assert("\\\""@ =~= spec_escape_char(c));
            }
        } else if c == '\\' {
            proof {
                reveal_strlit("\\\\");
            }
            out.append("\\\\");
            proof {
                assert("\\\\"@ =~= spec_escape_char(c));
            }
        } else {
            let piece = s.substring_char(i, i + 1);
            out.append(piece);
            proof {
                assert(piece@ =~= spec_escape_char(c));
            }
        }
        proof {
            lemma_escape_snoc(s@.take(i as int), c);
            assert(s@.take(i + 1) =~= s@.take(i as int).push(c));
            assert(old(out)@ + spec_escape(s@.take(i as int)) + spec_escape_char(c) =~= old(out)@
                + spec_escape(s@.take(i + 1)));
        }
        i = i + 1;
    }
    proof {
        assert(s@.take(s@.len() as int) =~= s@);
    }
}

/// Append the canonical text of one record.
fn append_entry(out: &mut String, e: &PresetEntry)
    requires
        spec_wf_entry(e@),
    ensures
        final(out)@ == old(out)@ + spec_entry_text(e@),
{
    proof {
        reveal_strlit("{\"index\":");
        reveal_strlit(",\"image_filename\":\"");
        reveal_strlit("\",\"preset_filename\":\"");
        reveal_strlit("\"}");
        assert("{\"index\":"@ =~= spec_key_index());
        assert(",\"image_filename\":\""@ =~= spec_key_image());
        assert("\",\"preset_filename\":\""@ =~= spec_key_preset());
        assert("\"}"@ =~= spec_key_close());
    }
    out.append("{\"index\":");
    append_decimal(out, e.index as u32);
    out.append(",\"image_filename\":\"");
    append_escaped(out, e.image_filename.as_str());
    out.append("\",\"preset_filename\":\"");
    append_escaped(out, e.preset_filename.as_str());
    out.append("\"}");
    proof {
        assert(final(out)@ =~= old(out)@ + spec_entry_text(e@));
    }
}

/// Encode a list of records as a manifest, in list order.
pub fn encode_preset_list(entries: &Vec<PresetEntry>) -> (r: String)
    requires
        spec_wf_entries(entries_view(entries@)),
    ensures
        r@ == spec_manifest_text(entries_view(entries@)),
{
    let ghost ev = entries_view(entries@);
    let mut out = String::new();
    proof {
        reveal_strlit("[");
        reveal_strlit("]");
        reveal_strlit(",");
    }
    out.append("[");
    let mut i: usize = 0;
    while i < entries.len()
        invariant
            ev == entries_view(entries@),
            spec_wf_entries(ev),
            ev.len() == entries@.len(),
            i <= entries@.len(),
            "["@ =~= seq!['['],
            ","@ =~= seq![','],
            out@ == seq!['['] + spec_entries_text(ev.take(i as int)),
            forall|j: int| 0 <= j < ev.len() ==> #[trigger] ev[j] == entries@[j]@,
        decreases entries@.len() - i,
    {
        if i > 0 {
            out.append(",");
        }
        proof {
            assert(spec_wf_entry(ev[i as int]));
            assert(ev[i as int] == entries@[i as int]@);
        }
        append_entry(&mut out, &entries[i]);
        proof {
            lemma_entries_text_snoc(ev.take(i as int), ev[i as int]);
            assert(ev.take(i + 1) =~= ev.take(i as int).push(ev[i as int]));
            if i == 0 {
                assert(spec_entries_text(ev.take(1)) == spec_entry_text(ev[0])) by {
                    assert(ev.take(1).len() == 1);
                    assert(ev.take(1)[0] == ev[0]);
                }
                assert(out@ =~= seq!['['] + spec_entries_text(ev.take(1)));
            } else {
                assert(out@ =~= seq!['['] + spec_entries_text(ev.take(i + 1)));
            }
        }
        i = i + 1;
    }
    out.append("]");
    proof {
        assert(ev.take(ev.len() as int) =~= ev);
        assert(out@ =~= spec_manifest_text(ev));
    }
    out
}

// ---------------------------------------------------------------------
// Decoding
// ---------------------------------------------------------------------

/// The number of decimal digits at the front of `s`.
pub open spec fn spec_digit_run(s: Seq<char>) -> int
    decreases s.len(),
{
    if s.len() > 0 && spec_is_digit(s[0]) {
        1 + spec_digit_run(s.skip(1))
    } else {
        0
    }
}

/// Parse a canonical numeral at the front of `s`: the value and the number
/// of characters consumed.  Rejects an empty digit run, a leading zero on a
/// multi-digit numeral, and a value beyond the slot-index range.
pub open spec fn spec_parse_num(s: Seq<char>) -> Option<(int, int)> {
    let run = spec_digit_run(s);
    if run == 0 {
        None
    } else if run > 1 && s[0] == '0' {
        None
    } else {
        let v = spec_digits_val(s.take(run));
        if v > MAX_SLOT_INDEX {
            None
        } else {
            Some((v, run))
        }
    }
}

/// The insignificant whitespace the manifest grammar allows between
/// tokens: space, tab, line feed, carriage return.
pub open spec fn spec_is_ws(c: char) -> bool {
    c == ' ' || c == '\t' || c == '\n' || c == '\r'
}

/// The number of whitespace characters at the front of `s`.
pub open spec fn spec_ws_len(s: Seq<char>) -> nat
    decreases s.len(),
{
    if s.len() > 0 && spec_is_ws(s[0]) {
        1 + spec_ws_len(s.skip(1))
    } else {
        0
    }
}

/// Whether `s` is whitespace through and through.
pub open spec fn spec_all_ws(s: Seq<char>) -> bool {
    spec_ws_len(s) == s.len()
}

pub open spec fn spec_is_hex(c: char) -> bool {
    spec_is_digit(c) || 97 <= (c as u32) <= 102 || 65 <= (c as u32) <= 70
}

pub open spec fn spec_hex_digit_val(c: char) -> int {
    if spec_is_digit(c) {
        (c as u32) - 48
    } else if 97 <= (c as u32) {
        (c as u32) - 87
    } else {
        (c as u32) - 55
    }
}

/// The value of the four hex digits at the front of `s`, if they are four
/// hex digits.
pub open spec fn spec_hex4(s: Seq<char>) -> Option<int> {
    if s.len() < 4 || !spec_is_hex(s[0]) || !spec_is_hex(s[1]) || !spec_is_hex(s[2])
        || !spec_is_hex(s[3]) {
        None
    } else {
        Some(
            ((spec_hex_digit_val(s[0]) * 16 + spec_hex_digit_val(s[1])) * 16 + spec_hex_digit_val(
                s[2],
            )) * 16 + spec_hex_digit_val(s[3]),
        )
    }
}

/// A `\uXXXX` escape at the front of `s` (which starts with `\u`): a plain
/// scalar value, or a high surrogate followed by a `\uXXXX` low surrogate.
pub open spec fn spec_parse_unicode_escape(s: Seq<char>) -> Option<(char, int)> {
    match spec_hex4(s.skip(2)) {
        None => None,
        Some(u) => if 0xD800 <= u <= 0xDBFF {
            if s.len() >= 8 && s[6] == '\\' && s[7] == 'u' {
                match spec_hex4(s.skip(8)) {
                    None => None,
                    Some(l) => if 0xDC00 <= l <= 0xDFFF {
                        Some((((0x10000 + (u - 0xD800) * 0x400 + (l - 0xDC00)) as u32) as char, 12))
                    } else {
                        None
                    },
                }
            } else {
                None
            }
        } else if 0xDC00 <= u <= 0xDFFF {
            None
        } else {
            Some(((u as u32) as char, 6))
        },
    }
}

/// An escape sequence at the front of `s` (which starts with `\`): the
/// character it denotes and the characters consumed.  The escapes are the
/// standard ones: `\"`, `\\`, `\/`, `\b`, `\f`, `\n`, `\r`, `\t`, `\uXXXX`.
#[verifier::opaque]
pub open spec fn spec_parse_escape(s: Seq<char>) -> Option<(char, int)> {
    if s.len() < 2 {
        None
    } else {
        let e = s[1];
        if e == '"' || e == '\\' || e == '/' {
            Some((e, 2))
        } else if e == 'b' {
            Some(('\u{0008}', 2))
        } else if e == 'f' {
            Some(('\u{000C}', 2))
        } else if e == 'n' {
            Some(('\n', 2))
        } else if e == 'r' {
            Some(('\r', 2))
        } else if e == 't' {
            Some(('\t', 2))
        } else if e == 'u' {
            spec_parse_unicode_escape(s)
        } else {
            None
        }
    }
}

/// Parse a quoted string's content at the front of `s`, up to but not
/// including the closing quote: the unescaped value and the number of
/// characters consumed.  Rejects raw control characters, unknown escapes,
/// and a missing closing quote.
pub open spec fn spec_parse_estr(s: Seq<char>) -> Option<(Seq<char>, int)>
    decreases s.len(),
{
    if s.len() == 0 {
        None
    } else if s[0] == '"' {
        Some((Seq::empty(), 0))
    } else if s[0] == '\\' {
        match spec_parse_escape(s) {
            None => None,
            Some((c, eu)) => if eu < 2 || eu > s.len() {
                None
            } else {
                match spec_parse_estr(s.skip(eu)) {
                    Some(r) => Some((seq![c] + r.0, r.1 + eu)),
                    None => None,
                }
            },
        }
    } else if (s[0] as u32) < 0x20 {
        None
    } else {
        match spec_parse_estr(s.skip(1)) {
            Some(r) => Some((seq![s[0]] + r.0, r.1 + 1)),
            None => None,
        }
    }
}

/// Parse one record member at the front of `s`: whitespace, a quoted key,
/// whitespace, a colon, whitespace, then the value — a numeral for
/// `index`, a quoted string for `image_filename` or `preset_filename`.
/// The result is the member's tag (0, 1 or 2 in that key order), its
/// numeric or string value, and the characters consumed, value's closing
/// quote included.
#[verifier::opaque]
pub open spec fn spec_parse_member(s: Seq<char>) -> Option<(int, int, Seq<char>, int)> {
    let w = spec_ws_len(s);
    let s1 = s.skip(w as int);
    if s1.len() == 0 || s1[0] != '"' {
        None
    } else {
        match spec_parse_estr(s1.skip(1)) {
            None => None,
            Some((key, ku)) => {
                let s2 = s1.skip(1 + ku + 1);
                let w2 = spec_ws_len(s2);
                if w2 >= s2.len() || s2[w2 as int] != ':' {
                    None
                } else {
                    let s3 = s2.skip(w2 as int + 1);
                    let w3 = spec_ws_len(s3);
                    let s4 = s3.skip(w3 as int);
                    let head = w + 1 + ku + 1 + w2 + 1 + w3;
                    if key == "index"@ {
                        match spec_parse_num(s4) {
                            None => None,
                            Some((n, nu)) => Some((0, n, Seq::empty(), head + nu)),
                        }
                    } else if key == "image_filename"@ {
                        if s4.len() == 0 || s4[0] != '"' {
                            None
                        } else {
                            match spec_parse_estr(s4.skip(1)) {
                                None => None,
                                Some((v, vu)) => Some((1, 0, v, head + 1 + vu + 1)),
                            }
                        }
                    } else if key == "preset_filename"@ {
                        if s4.len() == 0 || s4[0] != '"' {
                            None
                        } else {
                            match spec_parse_estr(s4.skip(1)) {
                                None => None,
                                Some((v, vu)) => Some((2, 0, v, head + 1 + vu + 1)),
                            }
                        }
                    } else {
                        None
                    }
                }
            }
        }
    }
}

/// Parse a record's members from just after its opening brace to its
/// closing brace: each of the three keys exactly once, in any order,
/// separated by commas.  The result carries the characters consumed,
/// closing brace included.
#[verifier::rlimit(100)]
pub open spec fn spec_parse_members(
    s: Seq<char>,
    idx: Option<int>,
    img: Option<Seq<char>>,
    pre: Option<Seq<char>>,
) -> Option<(PresetEntryV, int)>
    decreases s.len(),
{
    match spec_parse_member(s) {
        None => None,
        Some((which, num, sval, u)) => if u < 1 || u > s.len() {
            None
        } else if (which == 0 && idx is Some) || (which == 1 && img is Some) || (which == 2
            && pre is Some) {
            None
        } else {
            let idx2 = if which == 0 { Some(num) } else { idx };
            let img2 = if which == 1 { Some(sval) } else { img };
            let pre2 = if which == 2 { Some(sval) } else { pre };
            let s2 = s.skip(u);
            let w = spec_ws_len(s2);
            if w < s2.len() && s2[w as int] == ',' {
                match spec_parse_members(s2.skip(w as int + 1), idx2, img2, pre2) {
                    None => None,
                    Some((e, ru)) => Some((e, u + w + 1 + ru)),
                }
            } else if w < s2.len() && s2[w as int] == '}' {
                if idx2 is Some && img2 is Some && pre2 is Some {
                    Some(
                        (
                            PresetEntryV {
                                index: idx2->Some_0,
                                image_filename: img2->Some_0,
                                preset_filename: pre2->Some_0,
                            },
                            u + w + 1,
                        ),
                    )
                } else {
                    None
                }
            } else {
                None
            }
        },
    }
}

/// Parse one record at the front of `s`: the record and the number of
/// characters consumed.
pub open spec fn spec_parse_entry(s: Seq<char>) -> Option<(PresetEntryV, int)> {
    if s.len() == 0 || s[0] != '{' {
        None
    } else {
        match spec_parse_members(s.skip(1), None, None, None) {
            None => None,
            Some((e, u)) => Some((e, 1 + u)),
        }
    }
}

/// Parse `ws record (ws ',' ws record)* ws ']' ws`, consuming all of `s`.
#[verifier::rlimit(100)]
pub open spec fn spec_parse_entries_term(s: Seq<char>) -> Option<Seq<PresetEntryV>>
    decreases s.len(),
{
    let w = spec_ws_len(s);
    if w >= s.len() {
        None
    } else {
        match spec_parse_entry(s.skip(w as int)) {
            None => None,
            Some((e, u)) => if u < 1 || w + u > s.len() {
                None
            } else {
                let s2 = s.skip(w + u);
                let w2 = spec_ws_len(s2);
                if w2 < s2.len() && s2[w2 as int] == ',' {
                    match spec_parse_entries_term(s2.skip(w2 as int + 1)) {
                        Some(r) => Some(seq![e] + r),
                        None => None,
                    }
                } else if w2 < s2.len() && s2[w2 as int] == ']' {
                    if spec_all_ws(s2.skip(w2 as int + 1)) {
                        Some(seq![e])
                    } else {
                        None
                    }
                } else {
                    None
                }
            },
        }
    }
}

/// Parse a whole manifest: `Some` of its records exactly when `s` is a
/// well-formed record array — whitespace between tokens, any member
/// order, and standard string escapes all accepted.
pub open spec fn spec_parse_manifest(s: Seq<char>) -> Option<Seq<PresetEntryV>> {
    let w = spec_ws_len(s);
    if w >= s.len() || s[w as int] != '[' {
        None
    } else {
        let t = s.skip(w as int + 1);
        let w1 = spec_ws_len(t);
        if w1 < t.len() && t[w1 as int] == ']' {
            if spec_all_ws(t.skip(w1 as int + 1)) {
                Some(Seq::empty())
            } else {
                None
            }
        } else {
            spec_parse_entries_term(t)
        }
    }
}

/// The whitespace run of `s` is `r` exactly when the first `r` characters
/// are whitespace and the next one (if any) is not.
proof fn lemma_ws_len_is(s: Seq<char>, r: int)
    requires
        0 <= r <= s.len(),
        forall|i: int| 0 <= i < r ==> spec_is_ws(#[trigger] s[i]),
        r == s.len() || !spec_is_ws(s[r]),
    ensures
        spec_ws_len(s) == r,
    decreases s.len(),
{
    if r > 0 {
        assert(spec_is_ws(s[0]));
        assert(forall|i: int| 0 <= i < r - 1 ==> #[trigger] s.skip(1)[i] == s[i + 1]);
        assert(r - 1 == s.skip(1).len() || !spec_is_ws(s.skip(1)[r - 1]));
        lemma_ws_len_is(s.skip(1), r - 1);
    }
}

/// The position of the first non-whitespace character at or after `pos`.
fn skip_ws(s: &str, pos: usize) -> (j: usize)
    requires
        pos <= s@.len(),
    ensures
        pos <= j <= s@.len(),
        j - pos == spec_ws_len(s@.skip(pos as int)),
        j == s@.len() || !spec_is_ws(s@[j as int]),
{
    let slen = s.unicode_len();
    let mut j: usize = pos;
    while j < slen
        invariant
            pos <= j <= slen,
            slen == s@.len(),
            forall|q: int| pos <= q < j ==> spec_is_ws(#[trigger] s@[q]),
        decreases slen - j,
    {
        let c = s.get_char(j);
        if !(c == ' ' || c == '\t' || c == '\n' || c == '\r') {
            proof {
                let t = s@.skip(pos as int);
                assert(forall|q: int| 0 <= q < j - pos ==> #[trigger] t[q] == s@[pos + q]);
                assert(t[j - pos] == s@[j as int]);
                lemma_ws_len_is(t, j - pos);
            }
            return j;
        }
        j = j + 1;
    }
    proof {
        let t = s@.skip(pos as int);
        assert(forall|q: int| 0 <= q < j - pos ==> #[trigger] t[q] == s@[pos + q]);
        lemma_ws_len_is(t, j - pos);
    }
    j
}

/// Whether everything at or after `pos` is whitespace.
fn rest_all_ws(s: &str, pos: usize) -> (b: bool)
    requires
        pos <= s@.len(),
    ensures
        b == spec_all_ws(s@.skip(pos as int)),
{
    let slen = s.unicode_len();
    let j = skip_ws(s, pos);
    j == slen
}

/// Whether two strings hold the same characters.
pub(crate) fn str_eq(s: &str, t: &str) -> (b: bool)
    ensures
        b == (s@ == t@),
{
    let sl = s.unicode_len();
    let tl = t.unicode_len();
    if sl != tl {
        return false;
    }
    let r = expect_lit(s, 0, t);
    proof {
        assert(s@.subrange(0, t@.len() as int) =~= s@);
    }
    r
}

/// The value of one hex digit, if `c` is one.
fn hex_digit(c: char) -> (r: Option<u32>)
    ensures
        match r {
            Some(v) => spec_is_hex(c) && v == spec_hex_digit_val(c) && v < 16,
            None => !spec_is_hex(c),
        },
{
    let u = c as u32;
    if 48 <= u && u <= 57 {
        Some(u - 48)
    } else if 97 <= u && u <= 102 {
        Some(u - 87)
    } else if 65 <= u && u <= 70 {
        Some(u - 55)
    } else {
        None
    }
}

/// The value of the four hex digits at `pos`, if four hex digits stand
/// there.
fn read_hex4(s: &str, pos: usize) -> (r: Option<u32>)
    requires
        pos <= s@.len(),
    ensures
        match r {
            Some(u) => spec_hex4(s@.skip(pos as int)) == Some(u as int) && u < 0x10000,
            None => spec_hex4(s@.skip(pos as int)) is None,
        },
{
    let ghost t = s@.skip(pos as int);
    let slen = s.unicode_len();
    if slen < 4 || pos > slen - 4 {
        return None;
    }
    proof {
        assert(t[0] == s@[pos as int]);
        assert(t[1] == s@[pos + 1]);
        assert(t[2] == s@[pos + 2]);
        assert(t[3] == s@[pos + 3]);
    }
    let v0 = match hex_digit(s.get_char(pos)) {
        Some(v) => v,
        None => {
            return None;
        }
    };
    let v1 = match hex_digit(s.get_char(pos + 1)) {
        Some(v) => v,
        None => {
            return None;
        }
    };
    let v2 = match hex_digit(s.get_char(pos + 2)) {
        Some(v) => v,
        None => {
            return None;
        }
    };
    let v3 = match hex_digit(s.get_char(pos + 3)) {
        Some(v) => v,
        None => {
            return None;
        }
    };
    Some(((v0 * 16 + v1) * 16 + v2) * 16 + v3)
}

/// Relies on `char::from_u32`: for every Unicode scalar value it returns
/// the character with exactly that value.
#[verifier::external_body]
fn char_from_u32(u: u32) -> (c: char)
    requires
        vstd::utf8::is_scalar(u),
    ensures
        c as u32 == u,
{
    char::from_u32(u).unwrap()
}

/// Relies on `String::push`: it appends exactly the one character.
#[verifier::external_body]
fn push_char(out: &mut String, c: char)
    ensures
        final(out)@ == old(out)@ + seq![c],
{
    out.push(c);
}

/// Parse the escape sequence at `pos` (where a backslash stands): the
/// character it denotes and the characters consumed.
fn parse_escape_at(s: &str, pos: usize) -> (r: Result<(char, usize), PresetError>)
    requires
        pos < s@.len(),
        s@[pos as int] == '\\',
    ensures
        match r {
            Ok((c, eu)) => {
                &&& 2 <= eu
                &&& pos + eu <= s@.len()
                &&& spec_parse_escape(s@.skip(pos as int)) == Some((c, eu as int))
            },
            Err(e) => e == PresetError::MalformedManifest && spec_parse_escape(
                s@.skip(pos as int),
            ) is None,
        },
{
    proof {
        reveal(spec_parse_escape);
    }
    let ghost t = s@.skip(pos as int);
    let slen = s.unicode_len();
    if pos + 1 >= slen {
        proof {
            assert(t.len() < 2);
        }
        return Err(PresetError::MalformedManifest);
    }
    let e = s.get_char(pos + 1);
    proof {
        assert(t[1] == e);
    }
    if e == '"' || e == '\\' || e == '/' {
        return Ok((e, 2));
    }
    if e == 'b' {
        return Ok(('\u{0008}', 2));
    }
    if e == 'f' {
        return Ok(('\u{000C}', 2));
    }
    if e == 'n' {
        return Ok(('\n', 2));
    }
    if e == 'r' {
        return Ok(('\r', 2));
    }
    if e == 't' {
        return Ok(('\t', 2));
    }
    if e != 'u' {
        return Err(PresetError::MalformedManifest);
    }
    proof {
        assert(t.skip(2) =~= s@.skip(pos + 2));
    }
    let hi = match read_hex4(s, pos + 2) {
        Some(u) => u,
        None => {
            return Err(PresetError::MalformedManifest);
        }
    };
    if 0xD800 <= hi && hi <= 0xDBFF {
        // A high surrogate must pair with a following low surrogate.
        if slen - pos < 8 {
            proof {
                assert(t.len() < 8);
            }
            return Err(PresetError::MalformedManifest);
        }
        proof {
            assert(t[6] == s@[pos + 6]);
            assert(t[7] == s@[pos + 7]);
            assert(t.skip(8) =~= s@.skip(pos + 8));
        }
        if s.get_char(pos + 6) != '\\' || s.get_char(pos + 7) != 'u' {
            return Err(PresetError::MalformedManifest);
        }
        let lo = match read_hex4(s, pos + 8) {
            Some(u) => u,
            None => {
                return Err(PresetError::MalformedManifest);
            }
        };
        if !(0xDC00 <= lo && lo <= 0xDFFF) {
            return Err(PresetError::MalformedManifest);
        }
        let code: u32 = 0x10000 + (hi - 0xD800) * 0x400 + (lo - 0xDC00);
        proof {
            assert(vstd::utf8::is_scalar(code));
        }
        let c = char_from_u32(code);
        proof {
            vstd::utf8::char_u32_cast(c, code);
        }
        return Ok((c, 12));
    }
    if 0xDC00 <= hi && hi <= 0xDFFF {
        return Err(PresetError::MalformedManifest);
    }
    proof {
        assert(vstd::utf8::is_scalar(hi));
    }
    let c = char_from_u32(hi);
    proof {
        vstd::utf8::char_u32_cast(c, hi);
    }
    Ok((c, 6))
}

/// Whether the fixed text `lit` stands at position `pos` of `s`.
pub(crate) fn expect_lit(s: &str, pos: usize, lit: &str) -> (b: bool)
    requires
        pos <= s@.len(),
    ensures
        b == (pos + lit@.len() <= s@.len() && s@.subrange(pos as int, pos + lit@.len()) == lit@),
{
    let n = lit.unicode_len();
    let slen = s.unicode_len();
    if slen - pos < n {
        return false;
    }
    let mut j: usize = 0;
    while j < n
        invariant
            n == lit@.len(),
            slen == s@.len(),
            pos + n <= slen,
            j <= n,
            forall|q: int| 0 <= q < j ==> s@[pos + q] == lit@[q],
        decreases n - j,
    {
        if s.get_char(pos + j) != lit.get_char(j) {
            proof {
                if s@.subrange(pos as int, pos + lit@.len()) == lit@ {
                    assert(s@.subrange(pos as int, pos + lit@.len())[j as int] == lit@[j as int]);
                }
            }
            return false;
        }
        j = j + 1;
    }
    proof {
        assert(s@.subrange(pos as int, pos + lit@.len()) =~= lit@);
    }
    true
}

/// Powers of ten, for bounding numeral values.
pub open spec fn spec_pow10(n: int) -> int
    decreases n,
{
    if n <= 0 {
        1
    } else {
        10 * spec_pow10(n - 1)
    }
}

/// A digit string's value is below ten to its length.
proof fn lemma_digits_val_upper(s: Seq<char>)
    requires
        forall|i: int| 0 <= i < s.len() ==> spec_is_digit(#[trigger] s[i]),
    ensures
        0 <= spec_digits_val(s) < spec_pow10(s.len() as int),
    decreases s.len(),
{
    if s.len() > 0 {
        assert(forall|i: int|
            0 <= i < s.len() - 1 ==> spec_is_digit(#[trigger] s.drop_last()[i]));
        lemma_digits_val_upper(s.drop_last());
    }
}

/// A digit string with no leading zero has a value of at least ten to one
/// less than its length.
proof fn lemma_digits_val_lower(s: Seq<char>)
    requires
        s.len() >= 1,
        forall|i: int| 0 <= i < s.len() ==> spec_is_digit(#[trigger] s[i]),
        s[0] != '0',
    ensures
        spec_digits_val(s) >= spec_pow10(s.len() - 1),
    decreases s.len(),
{
    if s.len() == 1 {
        assert(s.drop_last() =~= Seq::<char>::empty());
        assert(spec_digits_val(Seq::<char>::empty()) == 0);
        assert(s.last() == s[0]);
        assert(spec_digit_val(s[0]) >= 1) by {
            assert('0' as u32 == 48);
            if s[0] as u32 == 48 {
                vstd::utf8::char_u32_cast(s[0], 48);
                vstd::utf8::char_u32_cast('0', 48);
                assert(s[0] == '0');
            }
        }
        assert(spec_pow10(0) == 1) by {
            reveal_with_fuel(spec_pow10, 1);
        }
    } else {
        assert(forall|i: int|
            0 <= i < s.len() - 1 ==> spec_is_digit(#[trigger] s.drop_last()[i]));
        assert(s.drop_last()[0] == s[0]);
        lemma_digits_val_lower(s.drop_last());
        assert(spec_pow10(s.len() - 1) == 10 * spec_pow10(s.len() - 2));
        assert(spec_digit_val(s.last()) >= 0);
    }
}

/// Powers of ten are positive and do not decrease.
proof fn lemma_pow10_mono(a: int, b: int)
    requires
        0 <= a <= b,
    ensures
        1 <= spec_pow10(a) <= spec_pow10(b),
    decreases b,
{
    if a == b {
        lemma_pow10_pos(a);
    } else {
        lemma_pow10_mono(a, b - 1);
    }
}

/// Powers of ten are at least one.
proof fn lemma_pow10_pos(n: int)
    ensures
        spec_pow10(n) >= 1,
    decreases n,
{
    if n > 0 {
        lemma_pow10_pos(n - 1);
    }
}

/// The digit run of `s` is `r` exactly when the first `r` characters are
/// digits and the next one (if any) is not.
proof fn lemma_digit_run_is(s: Seq<char>, r: int)
    requires
        0 <= r <= s.len(),
        forall|i: int| 0 <= i < r ==> spec_is_digit(#[trigger] s[i]),
        r == s.len() || !spec_is_digit(s[r]),
    ensures
        spec_digit_run(s) == r,
    decreases s.len(),
{
    if r == 0 {
    } else {
        assert(spec_is_digit(s[0]));
        assert(forall|i: int| 0 <= i < r - 1 ==> #[trigger] s.skip(1)[i] == s[i + 1]);
        assert(r - 1 == s.skip(1).len() || !spec_is_digit(s.skip(1)[r - 1]));
        lemma_digit_run_is(s.skip(1), r - 1);
    }
}

/// The position of the first non-digit character at or after `pos`.
fn scan_digits(s: &str, pos: usize) -> (j: usize)
    requires
        pos <= s@.len(),
    ensures
        pos <= j <= s@.len(),
        forall|q: int| pos <= q < j ==> spec_is_digit(#[trigger] s@[q]),
        j == s@.len() || !spec_is_digit(s@[j as int]),
{
    let slen = s.unicode_len();
    let mut j: usize = pos;
    while j < slen
        invariant
            pos <= j <= slen,
            slen == s@.len(),
            forall|q: int| pos <= q < j ==> spec_is_digit(#[trigger] s@[q]),
        decreases slen - j,
    {
        let c = s.get_char(j);
        if (c as u32) < 48 || (c as u32) > 57 {
            return j;
        }
        j = j + 1;
    }
    j
}

/// Parse a canonical numeral at position `pos`; on success the value and
/// the position just past it.
fn parse_num_at(s: &str, pos: usize) -> (r: Result<(i32, usize), PresetError>)
    requires
        pos <= s@.len(),
    ensures
        match r {
            Ok((v, np)) => {
                &&& pos <= np <= s@.len()
                &&& 0 <= v
                &&& spec_parse_num(s@.skip(pos as int)) == Some((v as int, np - pos))
            },
            Err(e) => e == PresetError::MalformedManifest && spec_parse_num(
                s@.skip(pos as int),
            ) is None,
        },
{
    let ghost t = s@.skip(pos as int);
    let slen = s.unicode_len();
    let j = scan_digits(s, pos);
    let run = j - pos;
    proof {
        assert(forall|q: int| 0 <= q < run ==> #[trigger] t[q] == s@[pos + q]);
        lemma_digit_run_is(t, run as int);
    }
    if run == 0 {
        return Err(PresetError::MalformedManifest);
    }
    if run > 1 && s.get_char(pos) == '0' {
        return Err(PresetError::MalformedManifest);
    }
    proof {
        assert(forall|i: int| 0 <= i < run ==> spec_is_digit(#[trigger] t.take(run as int)[i]));
    }
    if run > 10 {
        proof {
            assert(t.take(run as int)[0] == t[0]);
            lemma_digits_val_lower(t.take(run as int));
            lemma_pow10_mono(10, run - 1);
            assert(spec_pow10(10) == 10_000_000_000) by {
                reveal_with_fuel(spec_pow10, 11);
            }
        }
        return Err(PresetError::MalformedManifest);
    }
    let mut acc: u64 = 0;
    let mut k: usize = 0;
    proof {
        assert(t.take(0) =~= Seq::<char>::empty());
        assert(spec_pow10(0) == 1) by {
            reveal_with_fuel(spec_pow10, 1);
        }
        lemma_pow10_mono(0, 10);
    }
    while k < run
        invariant
            k <= run,
            run <= 10,
            pos + run <= slen,
            slen == s@.len(),
            t == s@.skip(pos as int),
            forall|q: int| 0 <= q < run ==> spec_is_digit(#[trigger] t[q]),
            forall|q: int| pos <= q < pos + run ==> spec_is_digit(#[trigger] s@[q]),
            acc == spec_digits_val(t.take(k as int)),
            acc < spec_pow10(k as int),
            spec_pow10(k as int) <= spec_pow10(10),
        decreases run - k,
    {
        let c = s.get_char(pos + k);
        proof {
            assert(t[k as int] == s@[pos + k]);
            assert(t.take(k + 1).drop_last() =~= t.take(k as int));
            assert(t.take(k + 1).last() == t[k as int]);
            assert(spec_pow10(k + 1) == 10 * spec_pow10(k as int));
            lemma_pow10_mono(k + 1, 10);
            assert(spec_pow10(10) == 10_000_000_000) by {
                reveal_with_fuel(spec_pow10, 11);
            }
        }
        acc = acc * 10 + ((c as u32) - 48) as u64;
        k = k + 1;
    }
    proof {
        assert(spec_pow10(10) == 10_000_000_000) by {
            reveal_with_fuel(spec_pow10, 11);
        }
    }
    if acc > 0x7fff_ffff {
        return Err(PresetError::MalformedManifest);
    }
    Ok((acc as i32, j))
}

/// One unfolding of the string scanner at an escape.
#[verifier::rlimit(100)]
#[verifier::spinoff_prover]
proof fn lemma_estr_step_escape(t: Seq<char>, c: char, eu: int)
    requires
        t.len() > 0,
        t[0] == '\\',
        spec_parse_escape(t) == Some((c, eu)),
        2 <= eu <= t.len(),
    ensures
        spec_parse_estr(t) == (match spec_parse_estr(t.skip(eu)) {
            Some(r) => Some((seq![c] + r.0, r.1 + eu)),
            None => None,
        }),
{
}

/// One unfolding of the string scanner at a plain character.
#[verifier::rlimit(100)]
#[verifier::spinoff_prover]
proof fn lemma_estr_step_char(t: Seq<char>)
    requires
        t.len() > 0,
        t[0] != '"',
        t[0] != '\\',
        (t[0] as u32) >= 0x20,
    ensures
        spec_parse_estr(t) == (match spec_parse_estr(t.skip(1)) {
            Some(r) => Some((seq![t[0]] + r.0, r.1 + 1)),
            None => None,
        }),
{
}

/// Parse a quoted string's content starting at `pos`; on success the value
/// and the position of the closing quote.
#[verifier::rlimit(100)]
#[verifier::spinoff_prover]
fn parse_estr_at(s: &str, pos: usize) -> (r: Result<(String, usize), PresetError>)
    requires
        pos <= s@.len(),
    ensures
        match r {
            Ok((v, np)) => {
                &&& pos <= np < s@.len()
                &&& spec_parse_estr(s@.skip(pos as int)) == Some((v@, np - pos))
            },
            Err(e) => e == PresetError::MalformedManifest && spec_parse_estr(
                s@.skip(pos as int),
            ) is None,
        },
{
    let slen = s.unicode_len();
    let mut out = String::new();
    let mut cur: usize = pos;
    loop
        invariant
            pos <= cur <= slen,
            slen == s@.len(),
            match spec_parse_estr(s@.skip(cur as int)) {
                Some(r2) => spec_parse_estr(s@.skip(pos as int)) == Some(
                    (out@ + r2.0, (cur - pos) + r2.1),
                ),
                None => spec_parse_estr(s@.skip(pos as int)) is None,
            },
        decreases slen - cur,
    {
        let ghost t = s@.skip(cur as int);
        if cur == slen {
            proof {
                assert(t.len() == 0);
            }
            return Err(PresetError::MalformedManifest);
        }
        let c = s.get_char(cur);
        proof {
            assert(t[0] == c);
        }
        if c == '"' {
            proof {
                assert(out@ + Seq::<char>::empty() =~= out@);
            }
            return Ok((out, cur));
        }
        if c == '\\' {
            let (ec, eu) = match parse_escape_at(s, cur) {
                Ok(x) => x,
                Err(err) => {
                    return Err(err);
                }
            };
            let ghost out0 = out@;
            push_char(&mut out, ec);
            proof {
                lemma_estr_step_escape(t, ec, eu as int);
                assert(t.skip(eu as int) =~= s@.skip(cur + eu));
                match spec_parse_estr(s@.skip(cur + eu)) {
                    Some(r3) => {
                        assert(out0 + (seq![ec] + r3.0) =~= out@ + r3.0);
                    }
                    None => {}
                }
            }
            cur = cur + eu;
        } else if (c as u32) < 0x20 {
            return Err(PresetError::MalformedManifest);
        } else {
            let ghost out0 = out@;
            let piece = s.substring_char(cur, cur + 1);
            out.append(piece);
            proof {
                assert(piece@ =~= seq![c]);
                lemma_estr_step_char(t);
                assert(t.skip(1) =~= s@.skip(cur + 1));
                match spec_parse_estr(s@.skip(cur + 1)) {
                    Some(r3) => {
                        assert(out0 + (seq![c] + r3.0) =~= out@ + r3.0);
                    }
                    None => {}
                }
            }
            cur = cur + 1;
        }
    }
}

/// The value a maybe-parsed index member carries.
pub open spec fn opt_idx_view(o: Option<i32>) -> Option<int> {
    match o {
        Some(v) => Some(v as int),
        None => None,
    }
}

/// The value a maybe-parsed filename member carries.
pub open spec fn opt_str_view(o: Option<String>) -> Option<Seq<char>> {
    match o {
        Some(v) => Some(v@),
        None => None,
    }
}

/// Parse one record member at position `pos`; on success its tag, value
/// and the position just past it.
#[verifier::rlimit(100)]
#[verifier::spinoff_prover]
fn parse_member_at(s: &str, pos: usize) -> (r: Result<(u8, i32, String, usize), PresetError>)
    requires
        pos <= s@.len(),
    ensures
        match r {
            Ok((which, num, sval, np)) => {
                &&& pos < np <= s@.len()
                &&& (which == 0 || which == 1 || which == 2)
                &&& 0 <= num
                &&& spec_parse_member(s@.skip(pos as int)) == Some(
                    (which as int, num as int, sval@, np - pos),
                )
            },
            Err(e) => e == PresetError::MalformedManifest && spec_parse_member(
                s@.skip(pos as int),
            ) is None,
        },
{
    proof {
        reveal(spec_parse_member);
    }
    let ghost t = s@.skip(pos as int);
    let slen = s.unicode_len();
    let w = skip_ws(s, pos);
    proof {
        assert(forall|q: int| 0 <= q < t.len() ==> #[trigger] t[q] == s@[pos + q]);
        assert(t.skip(pos as int - pos) =~= t);
        assert(spec_ws_len(t) == w - pos);
        assert(t.skip(w - pos) =~= s@.skip(w as int));
    }
    let ghost s1 = t.skip(w - pos);
    if w >= slen {
        return Err(PresetError::MalformedManifest);
    }
    if s.get_char(w) != '"' {
        proof {
            assert(s1[0] == s@[w as int]);
        }
        return Err(PresetError::MalformedManifest);
    }
    proof {
        assert(s1[0] == s@[w as int]);
        assert(s1.skip(1) =~= s@.skip(w + 1));
    }
    let (key, kq) = match parse_estr_at(s, w + 1) {
        Ok(x) => x,
        Err(e) => {
            return Err(e);
        }
    };
    let ghost ku = kq - (w + 1);
    let p2 = kq + 1;
    proof {
        assert(s1.skip(1 + ku + 1) =~= s@.skip(p2 as int));
    }
    let w2 = skip_ws(s, p2);
    proof {
        assert(spec_ws_len(s@.skip(p2 as int)) == w2 - p2);
    }
    if w2 >= slen {
        return Err(PresetError::MalformedManifest);
    }
    if s.get_char(w2) != ':' {
        proof {
            assert(s@.skip(p2 as int)[w2 - p2] == s@[w2 as int]);
        }
        return Err(PresetError::MalformedManifest);
    }
    proof {
        assert(s@.skip(p2 as int)[w2 - p2] == s@[w2 as int]);
        assert(s@.skip(p2 as int).skip(w2 - p2 + 1) =~= s@.skip(w2 + 1));
    }
    let p3 = w2 + 1;
    let w3 = skip_ws(s, p3);
    proof {
        assert(spec_ws_len(s@.skip(p3 as int)) == w3 - p3);
        assert(s@.skip(p3 as int).skip(w3 - p3) =~= s@.skip(w3 as int));
    }
    let ghost s4 = s@.skip(w3 as int);
    if str_eq(key.as_str(), "index") {
        let (n, np) = match parse_num_at(s, w3) {
            Ok(x) => x,
            Err(e) => {
                return Err(e);
            }
        };
        let empty_sval = String::new();
        proof {
            assert(empty_sval@ =~= Seq::<char>::empty());
        }
        return Ok((0u8, n, empty_sval, np));
    }
    if str_eq(key.as_str(), "image_filename") {
        if w3 >= slen {
            return Err(PresetError::MalformedManifest);
        }
        if s.get_char(w3) != '"' {
            proof {
                assert(s4[0] == s@[w3 as int]);
            }
            return Err(PresetError::MalformedManifest);
        }
        proof {
            assert(s4[0] == s@[w3 as int]);
            assert(s4.skip(1) =~= s@.skip(w3 + 1));
        }
        let (v, vq) = match parse_estr_at(s, w3 + 1) {
            Ok(x) => x,
            Err(e) => {
                return Err(e);
            }
        };
        return Ok((1u8, 0, v, vq + 1));
    }
    if str_eq(key.as_str(), "preset_filename") {
        if w3 >= slen {
            return Err(PresetError::MalformedManifest);
        }
        if s.get_char(w3) != '"' {
            proof {
                assert(s4[0] == s@[w3 as int]);
            }
            return Err(PresetError::MalformedManifest);
        }
        proof {
            assert(s4[0] == s@[w3 as int]);
            assert(s4.skip(1) =~= s@.skip(w3 + 1));
        }
        let (v, vq) = match parse_estr_at(s, w3 + 1) {
            Ok(x) => x,
            Err(e) => {
                return Err(e);
            }
        };
        return Ok((2u8, 0, v, vq + 1));
    }
    Err(PresetError::MalformedManifest)
}

/// Parse one record at position `pos`; on success the record and the
/// position just past its closing brace.
#[verifier::rlimit(100)]
#[verifier::spinoff_prover]
#[verifier::loop_isolation(false)]
fn parse_entry_at(s: &str, pos: usize) -> (r: Result<(PresetEntry, usize), PresetError>)
    requires
        pos <= s@.len(),
    ensures
        match r {
            Ok((e, np)) => {
                &&& pos < np <= s@.len()
                &&& spec_parse_entry(s@.skip(pos as int)) == Some((e@, np - pos))
            },
            Err(err) => err == PresetError::MalformedManifest && spec_parse_entry(
                s@.skip(pos as int),
            ) is None,
        },
{
    let slen = s.unicode_len();
    if pos >= slen {
        return Err(PresetError::MalformedManifest);
    }
    if s.get_char(pos) != '{' {
        return Err(PresetError::MalformedManifest);
    }
    let mut idx: Option<i32> = None;
    let mut img: Option<String> = None;
    let mut pre: Option<String> = None;
    let mut cur: usize = pos + 1;
    proof {
        assert(s@.skip(pos as int).skip(1) =~= s@.skip(pos + 1));
    }
    loop
        invariant
            pos < cur <= slen,
            match spec_parse_members(
                s@.skip(cur as int),
                opt_idx_view(idx),
                opt_str_view(img),
                opt_str_view(pre),
            ) {
                Some(r2) => spec_parse_entry(s@.skip(pos as int)) == Some(
                    (r2.0, (cur - pos) + r2.1),
                ),
                None => spec_parse_entry(s@.skip(pos as int)) is None,
            },
        decreases slen - cur,
    {
        let ghost vi = opt_idx_view(idx);
        let ghost vm = opt_str_view(img);
        let ghost vp = opt_str_view(pre);
        let ghost t = s@.skip(cur as int);
        let m = parse_member_at(s, cur);
        let (which, num, sval, np) = match m {
            Ok(x) => x,
            Err(e) => {
                return Err(e);
            }
        };
        if which == 0 {
            if idx.is_some() {
                return Err(PresetError::MalformedManifest);
            }
            idx = Some(num);
        } else if which == 1 {
            if img.is_some() {
                return Err(PresetError::MalformedManifest);
            }
            img = Some(sval);
        } else {
            if pre.is_some() {
                return Err(PresetError::MalformedManifest);
            }
            pre = Some(sval);
        }
        let ghost u = np - cur;
        proof {
            assert(t.skip(u) =~= s@.skip(np as int));
        }
        let j = skip_ws(s, np);
        let ghost w = j - np;
        proof {
            assert(spec_ws_len(s@.skip(np as int)) == w);
        }
        if j < slen && s.get_char(j) == ',' {
            proof {
                assert(s@.skip(np as int)[w] == s@[j as int]);
                assert(s@.skip(np as int).skip(w + 1) =~= s@.skip(j + 1));
                match spec_parse_members(
                    s@.skip(j + 1),
                    opt_idx_view(idx),
                    opt_str_view(img),
                    opt_str_view(pre),
                ) {
                    Some(r2) => {
                        assert(spec_parse_members(t, vi, vm, vp) == Some(
                            (r2.0, u + w + 1 + r2.1),
                        ));
                    }
                    None => {
                        assert(spec_parse_members(t, vi, vm, vp) is None);
                    }
                }
            }
            cur = j + 1;
        } else if j < slen && s.get_char(j) == '}' {
            proof {
                assert(s@.skip(np as int)[w] == s@[j as int]);
            }
            match (idx, img, pre) {
                (Some(i), Some(im), Some(pr)) => {
                    let e = PresetEntry { index: i, image_filename: im, preset_filename: pr };
                    proof {
                        assert(spec_parse_members(t, vi, vm, vp) == Some((e@, u + w + 1)));
                    }
                    return Ok((e, j + 1));
                }
                _ => {
                    return Err(PresetError::MalformedManifest);
                }
            }
        } else {
            return Err(PresetError::MalformedManifest);
        }
    }
}

/// Decode a manifest.
///
/// The result is exactly what `spec_parse_manifest` says of the text: the
/// record list when the text is a well-formed record array, and
/// `MalformedManifest` otherwise.
#[verifier::rlimit(100)]
#[verifier::spinoff_prover]
pub fn parse_preset_list(text: &str) -> (r: Result<Vec<PresetEntry>, PresetError>)
    ensures
        match r {
            Ok(v) => spec_parse_manifest(text@) == Some(entries_view(v@)),
            Err(e) => e == PresetError::MalformedManifest && spec_parse_manifest(text@) is None,
        },
{
    let slen = text.unicode_len();
    let w = skip_ws(text, 0);
    proof {
        assert(text@.skip(0) =~= text@);
    }
    if w >= slen || text.get_char(w) != '[' {
        return Err(PresetError::MalformedManifest);
    }
    let tstart = w + 1;
    let ghost t = text@.skip(tstart as int);
    let w1 = skip_ws(text, tstart);
    proof {
        assert(spec_ws_len(t) == w1 - tstart);
        assert(forall|q: int| 0 <= q < t.len() ==> #[trigger] t[q] == text@[tstart + q]);
    }
    if w1 < slen && text.get_char(w1) == ']' {
        if rest_all_ws(text, w1 + 1) {
            let empty: Vec<PresetEntry> = Vec::new();
            proof {
                assert(t.skip(w1 - tstart + 1) =~= text@.skip(w1 + 1));
                assert(entries_view(empty@) =~= Seq::<PresetEntryV>::empty());
            }
            return Ok(empty);
        } else {
            proof {
                assert(t.skip(w1 - tstart + 1) =~= text@.skip(w1 + 1));
            }
            return Err(PresetError::MalformedManifest);
        }
    }
    let mut out: Vec<PresetEntry> = Vec::new();
    let mut cur: usize = tstart;
    proof {
        if w1 < slen {
            assert(t[w1 - tstart] == text@[w1 as int]);
        }
        match spec_parse_entries_term(text@.skip(tstart as int)) {
            Some(r2) => {
                assert(entries_view(out@) + r2 =~= r2);
            }
            None => {}
        }
    }
    loop
        invariant
            slen == text@.len(),
            tstart <= cur <= slen,
            match spec_parse_entries_term(text@.skip(cur as int)) {
                Some(r2) => spec_parse_manifest(text@) == Some(entries_view(out@) + r2),
                None => spec_parse_manifest(text@) is None,
            },
        decreases slen - cur,
    {
        let ghost tc = text@.skip(cur as int);
        let ws_end = skip_ws(text, cur);
        proof {
            assert(spec_ws_len(tc) == ws_end - cur);
            assert(tc.skip(ws_end - cur) =~= text@.skip(ws_end as int));
        }
        if ws_end >= slen {
            return Err(PresetError::MalformedManifest);
        }
        let parsed = parse_entry_at(text, ws_end);
        let (e, np) = match parsed {
            Ok(x) => x,
            Err(err) => {
                return Err(err);
            }
        };
        proof {
            assert(tc.skip((ws_end - cur) + (np - ws_end)) =~= text@.skip(np as int));
        }
        let j = skip_ws(text, np);
        proof {
            assert(spec_ws_len(text@.skip(np as int)) == j - np);
        }
        let ghost ev0 = entries_view(out@);
        if j < slen && text.get_char(j) == ',' {
            proof {
                assert(text@.skip(np as int)[j - np] == text@[j as int]);
                assert(text@.skip(np as int).skip(j - np + 1) =~= text@.skip(j + 1));
            }
            out.push(e);
            proof {
                assert(entries_view(out@) =~= ev0.push(e@));
                match spec_parse_entries_term(text@.skip(j + 1)) {
                    Some(r2) => {
                        assert(spec_parse_entries_term(tc) == Some(seq![e@] + r2));
                        assert(ev0 + (seq![e@] + r2) =~= ev0.push(e@) + r2);
                    }
                    None => {
                        assert(spec_parse_entries_term(tc) is None);
                    }
                }
            }
            cur = j + 1;
        } else if j < slen && text.get_char(j) == ']' {
            proof {
                assert(text@.skip(np as int)[j - np] == text@[j as int]);
            }
            if rest_all_ws(text, j + 1) {
                proof {
                    assert(text@.skip(np as int).skip(j - np + 1) =~= text@.skip(j + 1));
                    assert(spec_parse_entries_term(tc) == Some(seq![e@]));
                }
                out.push(e);
                proof {
                    assert(entries_view(out@) =~= ev0.push(e@));
                    assert(ev0 + seq![e@] =~= ev0.push(e@));
                }
                return Ok(out);
            } else {
                proof {
                    assert(text@.skip(np as int).skip(j - np + 1) =~= text@.skip(j + 1));
                }
                return Err(PresetError::MalformedManifest);
            }
        } else {
            return Err(PresetError::MalformedManifest);
        }
    }
}

/// Appending a record appends a comma (when the list was not empty) and the
/// record's text.
proof fn lemma_entries_text_snoc(es: Seq<PresetEntryV>, e: PresetEntryV)
    ensures
        es.len() == 0 ==> spec_entries_text(es.push(e)) == spec_entry_text(e),
        es.len() > 0 ==> spec_entries_text(es.push(e)) == spec_entries_text(es) + seq![',']
            + spec_entry_text(e),
    decreases es.len(),
{
    if es.len() == 0 {
        assert(es.push(e)[0] == e);
        assert(es.push(e).len() == 1);
    } else if es.len() == 1 {
        assert(es.push(e)[0] == es[0]);
        assert(es.push(e).skip(1) =~= es.skip(1).push(e));
        assert(es.skip(1).len() == 0);
        lemma_entries_text_snoc(es.skip(1), e);
        assert(spec_entries_text(es.push(e)) == spec_entry_text(es[0]) + seq![',']
            + spec_entry_text(e));
        assert(spec_entries_text(es) == spec_entry_text(es[0]));
    } else {
        assert(es.push(e)[0] == es[0]);
        assert(es.push(e).skip(1) =~= es.skip(1).push(e));
        lemma_entries_text_snoc(es.skip(1), e);
        assert(spec_entries_text(es.push(e)) == spec_entry_text(es[0]) + seq![','] + (
        spec_entries_text(es.skip(1)) + seq![','] + spec_entry_text(e)));
        assert(spec_entry_text(es[0]) + seq![','] + (spec_entries_text(es.skip(1)) + seq![',']
            + spec_entry_text(e)) =~= (spec_entry_text(es[0]) + seq![','] + spec_entries_text(
            es.skip(1),
        )) + seq![','] + spec_entry_text(e));
    }
}

// ---------------------------------------------------------------------
// Facts about parsed records
// ---------------------------------------------------------------------

/// The digit run covers only digits.
proof fn lemma_digit_run_digits(s: Seq<char>)
    ensures
        0 <= spec_digit_run(s) <= s.len(),
        forall|i: int| 0 <= i < spec_digit_run(s) ==> spec_is_digit(#[trigger] s[i]),
    decreases s.len(),
{
    if s.len() > 0 && spec_is_digit(s[0]) {
        lemma_digit_run_digits(s.skip(1));
        assert forall|i: int| 0 <= i < spec_digit_run(s) implies spec_is_digit(
            #[trigger] s[i],
        ) by {
            if i > 0 {
                assert(s.skip(1)[i - 1] == s[i]);
                assert(spec_is_digit(s.skip(1)[i - 1]));
            }
        }
    }
}

/// A parsed numeral's value lies in the slot-index range.
proof fn lemma_parse_num_range(s: Seq<char>)
    ensures
        spec_parse_num(s) matches Some(r) ==> 0 <= r.0 <= MAX_SLOT_INDEX && 1 <= r.1 <= s.len(),
{
    match spec_parse_num(s) {
        Some((v, u)) => {
            lemma_digit_run_digits(s);
            assert(forall|i: int|
                0 <= i < u ==> spec_is_digit(#[trigger] s.take(u)[i]));
            lemma_digits_val_upper(s.take(u));
        }
        None => {}
    }
}

/// A parsed member's numeric value lies in the slot-index range.
#[verifier::rlimit(100)]
#[verifier::spinoff_prover]
proof fn lemma_parse_member_index(s: Seq<char>)
    ensures
        spec_parse_member(s) matches Some(r) ==> 0 <= r.1 <= MAX_SLOT_INDEX,
{
    reveal(spec_parse_member);
    match spec_parse_member(s) {
        Some((which, num, sval, u)) => {
            let w = spec_ws_len(s);
            let s1 = s.skip(w as int);
            let (key, ku) = spec_parse_estr(s1.skip(1))->Some_0;
            let s2 = s1.skip(1 + ku + 1);
            let w2 = spec_ws_len(s2);
            let s3 = s2.skip(w2 as int + 1);
            let w3 = spec_ws_len(s3);
            let s4 = s3.skip(w3 as int);
            if key == "index"@ {
                lemma_parse_num_range(s4);
            }
        }
        None => {}
    }
}

/// Whatever `spec_parse_members` completes a record to, its index lies in
/// the slot-index range, provided any already-seen index did.
#[verifier::rlimit(100)]
#[verifier::spinoff_prover]
proof fn lemma_parse_members_index(
    s: Seq<char>,
    idx: Option<int>,
    img: Option<Seq<char>>,
    pre: Option<Seq<char>>,
)
    requires
        idx matches Some(v) ==> 0 <= v <= MAX_SLOT_INDEX,
    ensures
        spec_parse_members(s, idx, img, pre) matches Some(r) ==> 0 <= r.0.index
            <= MAX_SLOT_INDEX,
    decreases s.len(),
{
    match spec_parse_member(s) {
        Some((which, num, sval, u)) => {
            lemma_parse_member_index(s);
            if u >= 1 && u <= s.len() {
                let idx2 = if which == 0 { Some(num) } else { idx };
                let img2 = if which == 1 { Some(sval) } else { img };
                let pre2 = if which == 2 { Some(sval) } else { pre };
                let s2 = s.skip(u);
                let w = spec_ws_len(s2);
                if w < s2.len() && s2[w as int] == ',' {
                    assert(s2.skip(w as int + 1).len() < s.len());
                    lemma_parse_members_index(s2.skip(w as int + 1), idx2, img2, pre2);
                }
            }
        }
        None => {}
    }
}

/// A parsed record's index lies in the slot-index range.
proof fn lemma_parse_entry_index(s: Seq<char>)
    ensures
        spec_parse_entry(s) matches Some(r) ==> 0 <= r.0.index <= MAX_SLOT_INDEX,
{
    if s.len() > 0 && s[0] == '{' {
        lemma_parse_members_index(s.skip(1), None, None, None);
    }
}

/// Every record of a parsed record list has an index in the slot-index
/// range.
#[verifier::rlimit(100)]
#[verifier::spinoff_prover]
proof fn lemma_parse_entries_term_indices(s: Seq<char>)
    ensures
        spec_parse_entries_term(s) matches Some(es) ==> forall|j: int|
            0 <= j < es.len() ==> 0 <= (#[trigger] es[j]).index <= MAX_SLOT_INDEX,
    decreases s.len(),
{
    match spec_parse_entries_term(s) {
        Some(es) => {
            let w = spec_ws_len(s);
            lemma_parse_entry_index(s.skip(w as int));
            let (e, u) = spec_parse_entry(s.skip(w as int))->Some_0;
            let s2 = s.skip(w + u);
            let w2 = spec_ws_len(s2);
            if w2 < s2.len() && s2[w2 as int] == ',' {
                assert(s2.skip(w2 as int + 1).len() < s.len());
                lemma_parse_entries_term_indices(s2.skip(w2 as int + 1));
                let rest = spec_parse_entries_term(s2.skip(w2 as int + 1))->Some_0;
                assert(es == seq![e] + rest);
                assert(forall|j: int| 1 <= j < es.len() ==> #[trigger] es[j] == rest[j - 1]);
                assert(es[0] == e);
            } else {
                assert(es == seq![e]);
                assert(es[0] == e);
            }
        }
        None => {}
    }
}

/// Every record of a decoded manifest has an index in the slot-index
/// range.
pub proof fn lemma_parse_manifest_indices(s: Seq<char>)
    ensures
        spec_parse_manifest(s) matches Some(es) ==> forall|j: int|
            0 <= j < es.len() ==> 0 <= (#[trigger] es[j]).index <= MAX_SLOT_INDEX,
{
    let w = spec_ws_len(s);
    if w < s.len() && s[w as int] == '[' {
        lemma_parse_entries_term_indices(s.skip(w as int + 1));
    }
}

// ---------------------------------------------------------------------
// Round trip
// ---------------------------------------------------------------------

/// One decimal digit's character carries its value.
proof fn lemma_digit_char_val(d: int)
    requires
        0 <= d <= 9,
    ensures
        spec_is_digit(spec_digit_char(d)),
        spec_digit_val(spec_digit_char(d)) == d,
{
    assert('0' as u32 == 48);
    assert('1' as u32 == 49);
    assert('2' as u32 == 50);
    assert('3' as u32 == 51);
    assert('4' as u32 == 52);
    assert('5' as u32 == 53);
    assert('6' as u32 == 54);
    assert('7' as u32 == 55);
    assert('8' as u32 == 56);
    assert('9' as u32 == 57);
}

/// A canonical numeral is all digits, at least one, with no leading zero
/// unless it is the numeral of zero itself.
pub proof fn lemma_dec_nat_digits(n: int)
    requires
        0 <= n,
    ensures
        spec_dec_nat(n).len() >= 1,
        forall|i: int| 0 <= i < spec_dec_nat(n).len() ==> spec_is_digit(#[trigger] spec_dec_nat(n)[i]),
        n >= 1 ==> spec_dec_nat(n)[0] != '0',
        n < 10 ==> spec_dec_nat(n).len() == 1,
    decreases n,
{
    if n < 10 {
        lemma_digit_char_val(n);
        assert('0' as u32 == 48);
        if n >= 1 {
            assert(spec_digit_val(spec_dec_nat(n)[0]) == n);
            assert(spec_digit_val('0') == 0);
        }
    } else {
        lemma_dec_nat_digits(n / 10);
        lemma_digit_char_val(n % 10);
        let d = spec_dec_nat(n);
        let p = spec_dec_nat(n / 10);
        assert(d == p.push(spec_digit_char(n % 10)));
        assert(forall|i: int| 0 <= i < p.len() ==> #[trigger] d[i] == p[i]);
        assert(d[p.len() as int] == spec_digit_char(n % 10));
        assert(d[0] == p[0]);
    }
}

/// A canonical numeral's digit value is the number it was made from.
pub proof fn lemma_digits_val_dec(n: int)
    requires
        0 <= n,
    ensures
        spec_digits_val(spec_dec_nat(n)) == n,
    decreases n,
{
    if n < 10 {
        lemma_digit_char_val(n);
        let d = spec_dec_nat(n);
        assert(d.drop_last() =~= Seq::<char>::empty());
        assert(spec_digits_val(Seq::<char>::empty()) == 0);
        assert(d.last() == spec_digit_char(n));
    } else {
        lemma_digits_val_dec(n / 10);
        lemma_digit_char_val(n % 10);
        let d = spec_dec_nat(n);
        let p = spec_dec_nat(n / 10);
        assert(d.drop_last() =~= p);
        assert(d.last() == spec_digit_char(n % 10));
    }
}

/// Parsing a canonical numeral followed by anything that does not extend
/// its digit run gives the number back and consumes exactly the numeral.
proof fn lemma_parse_num_canon(n: int, rest: Seq<char>)
    requires
        0 <= n <= MAX_SLOT_INDEX,
        rest.len() == 0 || !spec_is_digit(rest[0]),
    ensures
        spec_parse_num(spec_dec_nat(n) + rest) == Some((n, spec_dec_nat(n).len() as int)),
{
    let d = spec_dec_nat(n);
    let s = d + rest;
    lemma_dec_nat_digits(n);
    assert(forall|i: int| 0 <= i < d.len() ==> #[trigger] s[i] == d[i]);
    if d.len() < s.len() {
        assert(s[d.len() as int] == rest[0]);
    }
    lemma_digit_run_is(s, d.len() as int);
    assert(s.take(d.len() as int) =~= d);
    lemma_digits_val_dec(n);
    if d.len() > 1 {
        assert(n >= 1) by {
            if n == 0 {
                assert(d.len() == 1);
            }
        }
        assert(s[0] != '0');
    }
}

/// Parsing an escaped string followed by its closing quote gives the
/// string back and consumes exactly the escaped form.
#[verifier::rlimit(100)]
#[verifier::spinoff_prover]
proof fn lemma_parse_estr_canon(v: Seq<char>, rest: Seq<char>)
    requires
        spec_wf_manifest_string(v),
        rest.len() >= 1,
        rest[0] == '"',
    ensures
        spec_parse_estr(spec_escape(v) + rest) == Some((v, spec_escape(v).len() as int)),
    decreases v.len(),
{
    reveal(spec_parse_escape);
    let s = spec_escape(v) + rest;
    if v.len() == 0 {
        assert(spec_escape(v) == Seq::<char>::empty());
        assert(s =~= rest);
    } else {
        let c = v[0];
        let vt = v.skip(1);
        assert(spec_wf_manifest_string(vt)) by {
            assert(forall|i: int| 0 <= i < vt.len() ==> #[trigger] vt[i] == v[i + 1]);
        }
        lemma_parse_estr_canon(vt, rest);
        assert(spec_escape(v) == spec_escape_char(c) + spec_escape(vt));
        if c == '"' || c == '\\' {
            assert(spec_escape_char(c) == seq!['\\', c]);
            assert(s[0] == '\\');
            assert(s[1] == c);
            assert(s.len() >= 2);
            assert(spec_parse_escape(s) == Some((c, 2int)));
            assert(s.skip(2) =~= spec_escape(vt) + rest);
            assert(seq![c] + vt =~= v);
        } else {
            assert(spec_escape_char(c) == seq![c]);
            assert(s[0] == c);
            assert((c as u32) >= 0x20);
            assert(c != '"' && c != '\\');
            assert(s.skip(1) =~= spec_escape(vt) + rest);
            assert(seq![c] + vt =~= v);
        }
    }
}

/// Sequence concatenation is associative.
proof fn lemma_assoc(x: Seq<char>, y: Seq<char>, z: Seq<char>)
    ensures
        (x + y) + z == x + (y + z),
{
    assert((x + y) + z =~= x + (y + z));
}

/// Splitting a suffix of `s` that is a known concatenation.
proof fn lemma_concat_parts(s: Seq<char>, off: int, x: Seq<char>, y: Seq<char>)
    requires
        0 <= off <= s.len(),
        s.skip(off) == x + y,
    ensures
        off + x.len() <= s.len(),
        s.subrange(off, off + x.len()) == x,
        s.skip(off + x.len()) == y,
{
    assert(s.subrange(off, off + x.len()) =~= (x + y).subrange(0, x.len() as int));
    assert((x + y).subrange(0, x.len() as int) =~= x);
    assert(s.skip(off + x.len()) =~= (x + y).skip(x.len() as int));
    assert((x + y).skip(x.len() as int) =~= y);
}

/// The canonical member fragment `"index":`.
spec fn frag_key_index() -> Seq<char> {
    seq!['"', 'i', 'n', 'd', 'e', 'x', '"', ':']
}

/// The canonical member fragment `"image_filename":"`.
spec fn frag_key_image() -> Seq<char> {
    seq!['"', 'i', 'm', 'a', 'g', 'e', '_', 'f', 'i', 'l', 'e', 'n', 'a', 'm', 'e', '"', ':', '"']
}

/// The canonical member fragment `"preset_filename":"`.
spec fn frag_key_preset() -> Seq<char> {
    seq!['"', 'p', 'r', 'e', 's', 'e', 't', '_', 'f', 'i', 'l', 'e', 'n', 'a', 'm', 'e', '"', ':', '"']
}

/// A string with no quote and no backslash escapes to itself.
proof fn lemma_escape_clean(v: Seq<char>)
    requires
        forall|i: int| 0 <= i < v.len() ==> #[trigger] v[i] != '"' && v[i] != '\\',
    ensures
        spec_escape(v) == v,
    decreases v.len(),
{
    if v.len() == 0 {
        assert(spec_escape(v) =~= v);
    } else {
        assert(forall|i: int| 0 <= i < v.len() - 1 ==> #[trigger] v.skip(1)[i] == v[i + 1]);
        lemma_escape_clean(v.skip(1));
        assert(spec_escape_char(v[0]) == seq![v[0]]);
        assert(spec_escape(v) =~= v);
    }
}

/// The three member keys, as character sequences.
proof fn lemma_key_texts()
    ensures
        "index"@ == seq!['i', 'n', 'd', 'e', 'x'],
        "image_filename"@ == seq![
            'i', 'm', 'a', 'g', 'e', '_', 'f', 'i', 'l', 'e', 'n', 'a', 'm', 'e',
        ],
        "preset_filename"@ == seq![
            'p', 'r', 'e', 's', 'e', 't', '_', 'f', 'i', 'l', 'e', 'n', 'a', 'm', 'e',
        ],
        spec_escape("index"@) == "index"@,
        spec_escape("image_filename"@) == "image_filename"@,
        spec_escape("preset_filename"@) == "preset_filename"@,
        spec_wf_manifest_string("index"@),
        spec_wf_manifest_string("image_filename"@),
        spec_wf_manifest_string("preset_filename"@),
        "index"@ != "image_filename"@,
        "index"@ != "preset_filename"@,
        "image_filename"@ != "preset_filename"@,
{
    reveal_strlit("index");
    reveal_strlit("image_filename");
    reveal_strlit("preset_filename");
    assert("index"@ =~= seq!['i', 'n', 'd', 'e', 'x']);
    assert("image_filename"@ =~= seq![
        'i', 'm', 'a', 'g', 'e', '_', 'f', 'i', 'l', 'e', 'n', 'a', 'm', 'e',
    ]);
    assert("preset_filename"@ =~= seq![
        'p', 'r', 'e', 's', 'e', 't', '_', 'f', 'i', 'l', 'e', 'n', 'a', 'm', 'e',
    ]);
    lemma_escape_clean("index"@);
    lemma_escape_clean("image_filename"@);
    lemma_escape_clean("preset_filename"@);
    assert("image_filename"@[1] == 'm' && "preset_filename"@[1] == 'r');
}

/// Parsing the canonical `"index":N` member gives the index member.
#[verifier::spinoff_prover]
proof fn lemma_member_num_canon(n: int, after: Seq<char>)
    requires
        0 <= n <= MAX_SLOT_INDEX,
        after.len() > 0,
        !spec_is_digit(after[0]),
    ensures
        spec_parse_member(frag_key_index() + (spec_dec_nat(n) + after)) == Some(
            (0int, n, Seq::<char>::empty(), 8 + spec_dec_nat(n).len() as int),
        ),
{
    reveal(spec_parse_member);
    let b = spec_dec_nat(n);
    let s = frag_key_index() + (b + after);
    lemma_key_texts();
    assert(s[0] == '"');
    assert(!spec_is_ws('"'));
    assert(spec_ws_len(s) == 0);
    assert(s.skip(0) =~= s);
    // The key.
    let krest = seq!['"', ':'] + (b + after);
    assert(s.skip(1) =~= "index"@ + krest) by {
        assert(s.skip(1) =~= seq!['i', 'n', 'd', 'e', 'x', '"', ':'] + (b + after));
        assert(seq!['i', 'n', 'd', 'e', 'x', '"', ':'] + (b + after) =~= (seq![
            'i', 'n', 'd', 'e', 'x',
        ] + seq!['"', ':']) + (b + after));
        assert((seq!['i', 'n', 'd', 'e', 'x'] + seq!['"', ':']) + (b + after) =~= seq![
            'i', 'n', 'd', 'e', 'x',
        ] + (seq!['"', ':'] + (b + after)));
    }
    assert(krest[0] == '"');
    lemma_parse_estr_canon("index"@, krest);
    assert(spec_parse_estr(s.skip(1)) == Some(("index"@, 5int)));
    // The colon and the numeral.
    assert(s.skip(1).skip(6) =~= s.skip(7));
    assert(s.skip(7) =~= seq![':'] + (b + after)) by {
        assert(("index"@ + krest).skip(6) =~= krest.skip(1));
        assert(krest.skip(1) =~= seq![':'] + (b + after));
    }
    assert(s.skip(7)[0] == ':');
    assert(!spec_is_ws(':'));
    assert(spec_ws_len(s.skip(7)) == 0);
    assert(s.skip(7).skip(1) =~= s.skip(8));
    assert(s.skip(8) =~= b + after) by {
        assert((seq![':'] + (b + after)).skip(1) =~= b + after);
    }
    lemma_dec_nat_digits(n);
    assert((b + after)[0] == b[0]);
    assert(!spec_is_ws(b[0])) by {
        assert(spec_is_digit(b[0]));
        assert(' ' as u32 == 32 && '\t' as u32 == 9 && '\n' as u32 == 10 && '\r' as u32 == 13);
        if b[0] == ' ' || b[0] == '\t' || b[0] == '\n' || b[0] == '\r' {
            assert(false);
        }
    }
    assert(spec_ws_len(s.skip(8)) == 0);
    lemma_parse_num_canon(n, after);
    assert(spec_parse_num(s.skip(8)) == Some((n, b.len() as int)));
    assert(s.skip(8).skip(0) =~= s.skip(8));
    assert(spec_parse_member(s) == Some((0int, n, Seq::<char>::empty(), 8 + b.len() as int)));
}

/// Parsing a canonical string member gives that member.
#[verifier::rlimit(100)]
#[verifier::spinoff_prover]
proof fn lemma_member_str_canon(which: int, v: Seq<char>, after: Seq<char>)
    requires
        which == 1 || which == 2,
        spec_wf_manifest_string(v),
    ensures
        which == 1 ==> spec_parse_member(
            frag_key_image() + (spec_escape(v) + (seq!['"'] + after)),
        ) == Some((1int, 0int, v, 19 + spec_escape(v).len() as int)),
        which == 2 ==> spec_parse_member(
            frag_key_preset() + (spec_escape(v) + (seq!['"'] + after)),
        ) == Some((2int, 0int, v, 20 + spec_escape(v).len() as int)),
{
    reveal(spec_parse_member);
    lemma_key_texts();
    let dv = spec_escape(v);
    let tailv = dv + (seq!['"'] + after);
    let key = if which == 1 { "image_filename"@ } else { "preset_filename"@ };
    let kl = key.len() as int;
    let frag = if which == 1 { frag_key_image() } else { frag_key_preset() };
    let s = frag + tailv;
    assert(s[0] == '"');
    assert(!spec_is_ws('"'));
    assert(spec_ws_len(s) == 0);
    assert(s.skip(0) =~= s);
    // The key.
    let krest = seq!['"', ':', '"'] + tailv;
    assert(s.skip(1) =~= key + krest) by {
        assert(frag.skip(1) =~= key + seq!['"', ':', '"']);
        assert(s.skip(1) =~= frag.skip(1) + tailv);
        assert((key + seq!['"', ':', '"']) + tailv =~= key + (seq!['"', ':', '"'] + tailv));
    }
    assert(krest[0] == '"');
    lemma_parse_estr_canon(key, krest);
    assert(spec_parse_estr(s.skip(1)) == Some((key, kl)));
    // The colon and the opening quote of the value.
    assert(s.skip(1).skip(kl + 1) =~= s.skip(1 + kl + 1));
    assert(s.skip(1 + kl + 1) =~= seq![':', '"'] + tailv) by {
        assert((key + krest).skip(kl + 1) =~= krest.skip(1));
        assert(krest.skip(1) =~= seq![':', '"'] + tailv);
    }
    assert(s.skip(1 + kl + 1)[0] == ':');
    assert(!spec_is_ws(':'));
    assert(spec_ws_len(s.skip(1 + kl + 1)) == 0);
    let s3 = s.skip(1 + kl + 1 + 1);
    assert(s.skip(1 + kl + 1).skip(1) =~= s3);
    assert(s3 =~= seq!['"'] + tailv) by {
        assert((seq![':', '"'] + tailv).skip(1) =~= seq!['"'] + tailv);
    }
    assert(s3[0] == '"');
    assert(spec_ws_len(s3) == 0);
    // The value.
    assert(s3.skip(1) =~= dv + (seq!['"'] + after)) by {
        assert((seq!['"'] + tailv).skip(1) =~= tailv);
    }
    lemma_parse_estr_canon(v, seq!['"'] + after);
    assert(spec_parse_estr(s3.skip(1)) == Some((v, dv.len() as int)));
    assert(s3.skip(0) =~= s3);
    assert(key != "index"@);
    assert(spec_parse_member(s) == Some((which, 0int, v, kl + 5 + dv.len())));
}

/// The canonical record text, regrouped at the member grammar's seams.
#[verifier::rlimit(100)]
#[verifier::spinoff_prover]
proof fn lemma_entry_text_shape(e: PresetEntryV, rest: Seq<char>)
    ensures
        spec_entry_text(e) + rest == seq!['{'] + (frag_key_index() + (spec_dec_nat(e.index) + (
        seq![','] + (frag_key_image() + (spec_escape(e.image_filename) + (seq!['"'] + (seq![','] + (
        frag_key_preset() + (spec_escape(e.preset_filename) + (seq!['"'] + (seq!['}'] + rest))))))))))),
{
    let k1 = spec_key_index();
    let k2 = spec_key_image();
    let k3 = spec_key_preset();
    let k4 = spec_key_close();
    let b = spec_dec_nat(e.index);
    let di = spec_escape(e.image_filename);
    let dp = spec_escape(e.preset_filename);
    let s = spec_entry_text(e) + rest;
    // Regroup the fixed keys to the right, one step at a time.
    let a1 = k1 + b;
    let a2 = a1 + k2;
    let a3 = a2 + di;
    let a4 = a3 + k3;
    let a5 = a4 + dp;
    let a6 = a5 + k4;
    assert(spec_entry_text(e) == a6);
    let r5 = k4 + rest;
    let r4 = dp + r5;
    let r3 = k3 + r4;
    let r2 = di + r3;
    let r1 = k2 + r2;
    let r0 = b + r1;
    lemma_assoc(a5, k4, rest);
    lemma_assoc(a4, dp, r5);
    lemma_assoc(a3, k3, r4);
    lemma_assoc(a2, di, r3);
    lemma_assoc(a1, k2, r2);
    lemma_assoc(k1, b, r1);
    assert(s == k1 + r0);
    // Refine the fixed fragments to the member grammar's boundaries.
    let t11 = seq!['}'] + rest;
    let t10 = seq!['"'] + t11;
    let t9 = dp + t10;
    let t8 = frag_key_preset() + t9;
    let t7 = seq![','] + t8;
    let t6 = seq!['"'] + t7;
    let t5 = di + t6;
    let t4 = frag_key_image() + t5;
    let t3 = seq![','] + t4;
    let t2 = b + t3;
    let t1 = frag_key_index() + t2;
    assert(r5 =~= t10) by {
        assert(k4 =~= seq!['"'] + seq!['}']);
        lemma_assoc(seq!['"'], seq!['}'], rest);
    }
    assert(r3 =~= t6) by {
        assert(k3 =~= (seq!['"'] + seq![',']) + frag_key_preset());
        lemma_assoc(seq!['"'] + seq![','], frag_key_preset(), t9);
        lemma_assoc(seq!['"'], seq![','], t8);
        assert(k3 + r4 =~= ((seq!['"'] + seq![',']) + frag_key_preset()) + t9);
    }
    assert(r1 =~= t3) by {
        assert(k2 =~= seq![','] + frag_key_image());
        lemma_assoc(seq![','], frag_key_image(), t5);
        assert(k2 + r2 =~= (seq![','] + frag_key_image()) + t5);
    }
    assert(s =~= seq!['{'] + t1) by {
        assert(k1 =~= seq!['{'] + frag_key_index());
        lemma_assoc(seq!['{'], frag_key_index(), t2);
        assert(k1 + r0 =~= (seq!['{'] + frag_key_index()) + t2);
    }
}

/// One unfolding of the member list: after a parsed member and no
/// whitespace, a comma continues the list and a closing brace completes
/// the record.
#[verifier::rlimit(100)]
#[verifier::spinoff_prover]
proof fn lemma_members_step(
    s: Seq<char>,
    m: (int, int, Seq<char>, int),
    idx: Option<int>,
    img: Option<Seq<char>>,
    pre: Option<Seq<char>>,
)
    requires
        spec_parse_member(s) == Some(m),
        1 <= m.3 <= s.len(),
        m.0 == 0 ==> idx is None,
        m.0 == 1 ==> img is None,
        m.0 == 2 ==> pre is None,
        m.0 == 0 || m.0 == 1 || m.0 == 2,
        spec_ws_len(s.skip(m.3)) == 0,
    ensures
        ({
            let idx2 = if m.0 == 0 { Some(m.1) } else { idx };
            let img2 = if m.0 == 1 { Some(m.2) } else { img };
            let pre2 = if m.0 == 2 { Some(m.2) } else { pre };
            let s2 = s.skip(m.3);
            &&& (s2.len() > 0 && s2[0] == ',' ==> spec_parse_members(s, idx, img, pre) == (
            match spec_parse_members(s2.skip(1), idx2, img2, pre2) {
                None => None,
                Some((e, ru)) => Some((e, m.3 + 1 + ru)),
            }))
            &&& (s2.len() > 0 && s2[0] == '}' && idx2 is Some && img2 is Some && pre2 is Some
                ==> spec_parse_members(s, idx, img, pre) == Some(
                (
                    PresetEntryV {
                        index: idx2->Some_0,
                        image_filename: img2->Some_0,
                        preset_filename: pre2->Some_0,
                    },
                    m.3 + 1,
                ),
            ))
        }),
{
}

/// Parsing a record's canonical text followed by anything gives the record
/// back and consumes exactly the record's text.
#[verifier::rlimit(100)]
#[verifier::spinoff_prover]
proof fn lemma_parse_entry_canon(e: PresetEntryV, rest: Seq<char>)
    requires
        spec_wf_entry(e),
    ensures
        spec_parse_entry(spec_entry_text(e) + rest) == Some(
            (e, spec_entry_text(e).len() as int),
        ),
{
    let b = spec_dec_nat(e.index);
    let di = spec_escape(e.image_filename);
    let dp = spec_escape(e.preset_filename);
    let s = spec_entry_text(e) + rest;
    lemma_dec_nat_digits(e.index);
    let t11 = seq!['}'] + rest;
    let t10 = seq!['"'] + t11;
    let t9 = dp + t10;
    let t8 = frag_key_preset() + t9;
    let t7 = seq![','] + t8;
    let t6 = seq!['"'] + t7;
    let t5 = di + t6;
    let t4 = frag_key_image() + t5;
    let t3 = seq![','] + t4;
    let t2 = b + t3;
    let t1 = frag_key_index() + t2;
    lemma_entry_text_shape(e, rest);
    assert(s == seq!['{'] + t1);
    // Walk the three members.
    assert(s[0] == '{');
    assert(s.skip(1) =~= t1);
    assert(!spec_is_digit(',')) by {
        assert(',' as u32 == 44);
    }
    assert(t3[0] == ',' && t7[0] == ',' && t11[0] == '}');
    assert(!spec_is_ws(',') && !spec_is_ws('}'));
    // The three members, each parsed by its canon lemma.
    lemma_member_num_canon(e.index, t3);
    let u1 = 8 + b.len() as int;
    assert(t1.skip(0) =~= t1);
    lemma_concat_parts(t1, 0, frag_key_index(), t2);
    lemma_concat_parts(t1, 8, b, t3);
    assert(t1.skip(u1) == t3);
    assert(spec_ws_len(t3) == 0);
    assert(t3.skip(1) =~= t4);
    lemma_member_str_canon(1, e.image_filename, t7);
    let u2 = 19 + di.len() as int;
    assert(t4.skip(0) =~= t4);
    lemma_concat_parts(t4, 0, frag_key_image(), t5);
    lemma_concat_parts(t4, 18, di, t6);
    assert(t4.skip(u2) == t7) by {
        assert(t4.skip(18 + di.len() as int).skip(1) =~= t4.skip(u2));
        assert(t6.skip(1) =~= t7);
    }
    assert(spec_ws_len(t7) == 0);
    assert(t7.skip(1) =~= t8);
    lemma_member_str_canon(2, e.preset_filename, t11);
    let u3 = 20 + dp.len() as int;
    assert(t8.skip(0) =~= t8);
    lemma_concat_parts(t8, 0, frag_key_preset(), t9);
    lemma_concat_parts(t8, 19, dp, t10);
    assert(t8.skip(u3) == t11) by {
        assert(t8.skip(19 + dp.len() as int).skip(1) =~= t8.skip(u3));
        assert(t10.skip(1) =~= t11);
    }
    assert(spec_ws_len(t11) == 0);
    // Assemble, innermost member first.
    lemma_members_step(t8, (2int, 0int, e.preset_filename, u3), Some(e.index), Some(e.image_filename), None);
    assert(t11[0] == '}');
    assert(spec_parse_members(t8, Some(e.index), Some(e.image_filename), None) == Some(
        (e, u3 + 1),
    ));
    lemma_members_step(t4, (1int, 0int, e.image_filename, u2), Some(e.index), None, None);
    assert(t7[0] == ',');
    assert(spec_parse_members(t4, Some(e.index), None, None) == Some(
        (e, u2 + 1 + (u3 + 1)),
    ));
    lemma_members_step(t1, (0int, e.index, Seq::<char>::empty(), u1), None, None, None);
    assert(t3[0] == ',');
    assert(spec_parse_members(t1, None, None, None) == Some(
        (e, u1 + 1 + (u2 + 1 + (u3 + 1))),
    ));
    assert(spec_parse_entry(s) == Some((e, 1 + (u1 + 1 + (u2 + 1 + (u3 + 1))))));
    assert(1 + (u1 + 1 + (u2 + 1 + (u3 + 1))) == spec_entry_text(e).len());
}

/// Parsing the canonical text of one or more records followed by the
/// closing bracket gives the records back.
#[verifier::rlimit(100)]
#[verifier::spinoff_prover]
proof fn lemma_parse_entries_term_canon(es: Seq<PresetEntryV>)
    requires
        es.len() >= 1,
        spec_wf_entries(es),
    ensures
        spec_parse_entries_term(spec_entries_text(es) + seq![']']) == Some(es),
    decreases es.len(),
{
    let s = spec_entries_text(es) + seq![']'];
    assert(spec_entry_text(es[0])[0] == '{');
    assert(!spec_is_ws('{') && !spec_is_ws(',') && !spec_is_ws(']'));
    if es.len() == 1 {
        assert(spec_entries_text(es) == spec_entry_text(es[0]));
        assert(s[0] == '{');
        assert(spec_ws_len(s) == 0);
        assert(s.skip(0) =~= s);
        lemma_parse_entry_canon(es[0], seq![']']);
        let u = spec_entry_text(es[0]).len() as int;
        assert(u >= 1);
        let s2 = s.skip(u);
        assert(s2 =~= seq![']']);
        assert(spec_ws_len(s2) == 0);
        assert(s2[0] == ']');
        assert(s2[0] != ',') by {
            assert(']' as u32 == 93);
            assert(',' as u32 == 44);
            if ']' == ',' {
                vstd::utf8::char_u32_cast(']', 93);
                vstd::utf8::char_u32_cast(',', 44);
            }
        }
        assert(s2.skip(1) =~= Seq::<char>::empty());
        assert(spec_all_ws(Seq::<char>::empty()));
        assert(seq![es[0]] =~= es);
    } else {
        let e0 = es[0];
        let et = es.skip(1);
        assert(spec_wf_entries(et)) by {
            assert(forall|i: int| 0 <= i < et.len() ==> #[trigger] et[i] == es[i + 1]);
        }
        assert(spec_entries_text(es) == spec_entry_text(e0) + seq![','] + spec_entries_text(et));
        let rest = seq![','] + (spec_entries_text(et) + seq![']']);
        assert(s =~= spec_entry_text(e0) + rest);
        assert(s[0] == '{');
        assert(spec_ws_len(s) == 0);
        assert(s.skip(0) =~= s);
        lemma_parse_entry_canon(e0, rest);
        let u = spec_entry_text(e0).len() as int;
        assert(u >= 1);
        let s2 = s.skip(u);
        assert(s2 =~= rest);
        assert(s2[0] == ',');
        assert(spec_ws_len(s2) == 0);
        assert(s2.skip(1) =~= spec_entries_text(et) + seq![']']);
        lemma_parse_entries_term_canon(et);
        assert(seq![e0] + et =~= es);
    }
}

/// Round-trip law: decoding the canonical manifest text of any list of
/// well-formed records gives the records back, values and order exact.
pub proof fn lemma_manifest_roundtrip(es: Seq<PresetEntryV>)
    requires
        spec_wf_entries(es),
    ensures
        spec_parse_manifest(spec_manifest_text(es)) == Some(es),
{
    let s = spec_manifest_text(es);
    assert('[' as u32 == 91);
    assert(']' as u32 == 93);
    assert(!spec_is_ws('[') && !spec_is_ws(']') && !spec_is_ws('{'));
    assert(s[0] == '[');
    assert(spec_ws_len(s) == 0);
    let t = s.skip(1);
    if es.len() == 0 {
        assert(spec_entries_text(es) == Seq::<char>::empty());
        assert(s =~= seq!['[', ']']);
        assert(t =~= seq![']']);
        assert(spec_ws_len(t) == 0);
        assert(t[0] == ']');
        assert(t.skip(1) =~= Seq::<char>::empty());
        assert(spec_all_ws(Seq::<char>::empty()));
        assert(Seq::<PresetEntryV>::empty() =~= es);
    } else {
        lemma_dec_nat_digits(es[0].index);
        assert(t =~= spec_entries_text(es) + seq![']']);
        assert(spec_entry_text(es[0])[0] == '{');
        if es.len() == 1 {
            assert(spec_entries_text(es) == spec_entry_text(es[0]));
        }
        assert(t[0] == '{');
        assert(spec_ws_len(t) == 0);
        assert(t[0] != ']');
        lemma_parse_entries_term_canon(es);
    }
}

} // verus!
