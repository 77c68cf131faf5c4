//! The on-disk format of the skill store: a JSON array of objects
//! `{"name": <string>, "total_time_spent": <non-negative integer>}`.
//! The writer and the reader are both specified here, down to the
//! character, and reading back what was written is proved to return
//! the original entries.

use vstd::prelude::*;

verus! {

/// One persisted record: a skill's name, case-preserved as entered,
/// and the time accumulated for it (kept for future use, written as 0
/// for new entries).
#[derive(Debug)]
pub struct SkillEntry {
    pub name: String,
    pub total_time_spent: usize,
}

/// The mathematical value of a [`SkillEntry`].
#[verifier::ext_equal]
pub struct EntryV {
    pub name: Seq<char>,
    pub time: nat,
}

impl View for SkillEntry {
    type V = EntryV;

    open spec fn view(&self) -> EntryV {
        EntryV { name: self.name@, time: self.total_time_spent as nat }
    }
}

impl DeepView for SkillEntry {
    type V = EntryV;

    open spec fn deep_view(&self) -> EntryV {
        self@
    }
}

/// The key of the name field.
pub open spec fn name_key() -> Seq<char> {
    seq!['n', 'a', 'm', 'e']
}

/// The key of the time field.
pub open spec fn time_key() -> Seq<char> {
    seq!['t', 'o', 't', 'a', 'l', '_', 't', 'i', 'm', 'e', '_', 's', 'p', 'e', 'n', 't']
}

/// True for the decimal digits.
pub open spec fn is_digit(c: char) -> bool {
    48 <= c as u32 <= 57
}

/// The value of a decimal digit.
pub open spec fn digit_val(c: char) -> int {
    c as u32 - 48
}

/// The decimal digit `d` as a character.
pub open spec fn dec_digit_char(d: int) -> char {
    if d == 0 {
        '0'
    } else if d == 1 {
        '1'
    } else if d == 2 {
        '2'
    } else if d == 3 {
        '3'
    } else if d == 4 {
        '4'
    } else if d == 5 {
        '5'
    } else if d == 6 {
        '6'
    } else if d == 7 {
        '7'
    } else if d == 8 {
        '8'
    } else {
        '9'
    }
}

/// The decimal representation of `n`, most significant digit first,
/// without leading zeros (`0` is written as one digit).
pub open spec fn dec_digits(n: nat) -> Seq<char>
    decreases n,
{
    if n < 10 {
        seq![dec_digit_char(n as int)]
    } else {
        dec_digits(n / 10) + seq![dec_digit_char((n % 10) as int)]
    }
}

/// The hexadecimal digit `d` as a lower-case character.
pub open spec fn hex_digit_char(d: int) -> char {
    if d == 0 {
        '0'
    } else if d == 1 {
        '1'
    } else if d == 2 {
        '2'
    } else if d == 3 {
        '3'
    } else if d == 4 {
        '4'
    } else if d == 5 {
        '5'
    } else if d == 6 {
        '6'
    } else if d == 7 {
        '7'
    } else if d == 8 {
        '8'
    } else if d == 9 {
        '9'
    } else if d == 10 {
        'a'
    } else if d == 11 {
        'b'
    } else if d == 12 {
        'c'
    } else if d == 13 {
        'd'
    } else if d == 14 {
        'e'
    } else {
        'f'
    }
}

/// How one character is written inside a JSON string: quote and
/// backslash get a backslash escape, control characters a `\u00XX`
/// escape, and every other character stands for itself.
pub open spec fn escape_char(c: char) -> Seq<char> {
    if c == '"' {
        seq!['\\', '"']
    } else if c == '\\' {
        seq!['\\', '\\']
    } else if (c as u32) < 32 {
        seq![
            '\\',
            'u',
            '0',
            '0',
            hex_digit_char((c as u32 / 16) as int),
            hex_digit_char((c as u32 % 16) as int),
        ]
    } else {
        seq![c]
    }
}

/// A text written as the body of a JSON string.
pub open spec fn escape_string(s: Seq<char>) -> Seq<char>
    decreases s.len(),
{
    if s.len() == 0 {
        Seq::empty()
    } else {
        escape_char(s[0]) + escape_string(s.drop_first())
    }
}

/// One entry as a JSON object, the name field first.
pub open spec fn ser_entry(e: EntryV) -> Seq<char> {
    seq!['{', '"'] + name_key() + seq!['"', ':', '"'] + escape_string(e.name) + seq!['"', ',', '"']
        + time_key() + seq!['"', ':'] + dec_digits(e.time) + seq!['}']
}

/// The entries as the comma-separated items of a JSON array.
pub open spec fn ser_items(es: Seq<EntryV>) -> Seq<char>
    decreases es.len(),
{
    if es.len() == 0 {
        Seq::empty()
    } else if es.len() == 1 {
        ser_entry(es[0])
    } else {
        ser_entry(es[0]) + seq![','] + ser_items(es.drop_first())
    }
}

/// The whole store file for the given entries: a JSON array, written
/// without any blank space.
pub open spec fn spec_serialize(es: Seq<EntryV>) -> Seq<char> {
    seq!['['] + ser_items(es) + seq![']']
}

/// Splitting a text does not change how it is escaped.
pub proof fn lemma_escape_string_append(a: Seq<char>, b: Seq<char>)
    ensures
        escape_string(a + b) == escape_string(a) + escape_string(b),
    decreases a.len(),
{
    if a.len() == 0 {
        assert(a + b =~= b);
        assert(escape_string(a) + escape_string(b) =~= escape_string(b));
    } else {
        assert((a + b).drop_first() =~= a.drop_first() + b);
        lemma_escape_string_append(a.drop_first(), b);
        assert(escape_string(a + b) =~= escape_string(a) + escape_string(b));
    }
}

/// Writes the decimal digit `d`.
fn dec_digit(d: usize) -> (r: char)
    requires
        d < 10,
    ensures
        r == dec_digit_char(d as int),
{
    match d {
        0 => '0',
        1 => '1',
        2 => '2',
        3 => '3',
        4 => '4',
        5 => '5',
        6 => '6',
        7 => '7',
        8 => '8',
        _ => '9',
    }
}

/// Writes the hexadecimal digit `d` in lower case.
fn hex_digit(d: u32) -> (r: char)
    requires
        d < 16,
    ensures
        r == hex_digit_char(d as int),
{
    match d {
        0 => '0',
        1 => '1',
        2 => '2',
        3 => '3',
        4 => '4',
        5 => '5',
        6 => '6',
        7 => '7',
        8 => '8',
        9 => '9',
        10 => 'a',
        11 => 'b',
        12 => 'c',
        13 => 'd',
        14 => 'e',
        _ => 'f',
    }
}

/// Appends the decimal representation of `n`.
fn push_decimal(out: &mut Vec<char>, n: usize)
    ensures
        final(out)@ == old(out)@ + dec_digits(n as nat),
    decreases n,
{
    if n < 10 {
        out.push(dec_digit(n));
    } else {
        push_decimal(out, n / 10);
        out.push(dec_digit(n % 10));
    }
}

/// Appends one character in its escaped form.
fn push_escaped_char(out: &mut Vec<char>, c: char)
    ensures
        final(out)@ == old(out)@ + escape_char(c),
{
    if c == '"' {
        out.push('\\');
        out.push('"');
    } else if c == '\\' {
        out.push('\\');
        out.push('\\');
    } else {
        let u: u32 = c as u32;
        if u < 32 {
            out.push('\\');
            out.push('u');
            out.push('0');
            out.push('0');
            out.push(hex_digit(u / 16));
            out.push(hex_digit(u % 16));
        } else {
            out.push(c);
        }
    }
    proof {
        assert(out@ =~= old(out)@ + escape_char(c));
    }
}

/// Appends the body of the JSON string for `s`.
fn push_escaped(out: &mut Vec<char>, s: &str)
    ensures
        final(out)@ == old(out)@ + escape_string(s@),
{
    let len = s.unicode_len();
    let mut i: usize = 0;
    proof {
        assert(s@.take(0) =~= Seq::<char>::empty());
        assert(out@ =~= old(out)@ + escape_string(s@.take(0)));
    }
    while i < len
        invariant
            len == s@.len(),
            0 <= i <= len,
            out@ == old(out)@ + escape_string(s@.take(i as int)),
        decreases len - i,
    {
        let c = s.get_char(i);
        push_escaped_char(out, c);
        proof {
            assert(s@.take(i + 1) =~= s@.take(i as int) + seq![c]);
            lemma_escape_string_append(s@.take(i as int), seq![c]);
            assert(seq![c].drop_first() =~= Seq::<char>::empty());
            assert(escape_string(Seq::<char>::empty()) =~= Seq::<char>::empty());
            assert(escape_string(seq![c]) =~= escape_char(c));
            assert(out@ =~= old(out)@ + escape_string(s@.take(i + 1)));
        }
        i = i + 1;
    }
    proof {
        assert(s@.take(len as int) =~= s@);
    }
}

/// Appends one entry as a JSON object.
fn push_entry(out: &mut Vec<char>, e: &SkillEntry)
    ensures
        final(out)@ == old(out)@ + ser_entry(e@),
{
    out.push('{');
    out.push('"');
    out.push('n');
    out.push('a');
    out.push('m');
    out.push('e');
    out.push('"');
    out.push(':');
    out.push('"');
    push_escaped(out, e.name.as_str());
    out.push('"');
    out.push(',');
    out.push('"');
    out.push('t');
    out.push('o');
    out.push('t');
    out.push('a');
    out.push('l');
    out.push('_');
    out.push('t');
    out.push('i');
    out.push('m');
    out.push('e');
    out.push('_');
    out.push('s');
    out.push('p');
    out.push('e');
    out.push('n');
    out.push('t');
    out.push('"');
    out.push(':');
    push_decimal(out, e.total_time_spent);
    out.push('}');
    proof {
        assert(out@ =~= old(out)@ + ser_entry(e@));
    }
}

/// Writes the store file for the given entries: a JSON array of one
/// object per entry, in order, without any blank space.
pub fn serialize_entries(entries: &Vec<SkillEntry>) -> (r: String)
    ensures
        r@ == spec_serialize(entries.deep_view()),
{
    let ghost all = entries.deep_view();
    let mut out: Vec<char> = Vec::new();
    out.push('[');
    let mut i: usize = 0;
    proof {
        assert(all.len() == entries.len());
        assert(all.skip(0) =~= all);
        assert(out@ + ser_items(all.skip(0)) =~= seq!['['] + ser_items(all));
    }
    while i < entries.len()
        invariant
            all == entries.deep_view(),
            all.len() == entries.len(),
            0 <= i <= entries.len(),
            out@ + ser_items(all.skip(i as int)) == seq!['['] + ser_items(all),
        decreases entries.len() - i,
    {
        let ghost before = out@;
        proof {
            lemma_ser_items_step(all, i as int);
        }
        push_entry(&mut out, &entries[i]);
        if i + 1 < entries.len() {
            out.push(',');
            proof {
                assert(out@ + ser_items(all.skip(i as int + 1)) =~= before + ser_items(
                    all.skip(i as int),
                ));
            }
        } else {
            proof {
                assert(all.skip(i as int + 1) =~= Seq::<EntryV>::empty());
                assert(ser_items(all.skip(i as int + 1)) =~= Seq::<char>::empty());
                assert(out@ + ser_items(all.skip(i as int + 1)) =~= before + ser_items(
                    all.skip(i as int),
                ));
            }
        }
        i = i + 1;
    }
    out.push(']');
    proof {
        assert(all.skip(all.len() as int) =~= Seq::<EntryV>::empty());
        assert(out@ =~= spec_serialize(all));
    }
    crate::text::chars_to_string(&out)
}

/// What follows entry `i` in the serialized items: a comma and the
/// remaining items, or nothing after the last entry.
pub open spec fn ser_items_rest(es: Seq<EntryV>, i: int) -> Seq<char> {
    if i + 1 < es.len() {
        seq![','] + ser_items(es.skip(i + 1))
    } else {
        Seq::empty()
    }
}

/// Unfolds one item of the serialized array.
proof fn lemma_ser_items_step(es: Seq<EntryV>, i: int)
    requires
        0 <= i < es.len(),
    ensures
        ser_items(es.skip(i)) == ser_entry(es[i]) + ser_items_rest(es, i),
{
    let tail = es.skip(i);
    assert(tail.len() == es.len() - i);
    assert(tail[0] == es[i]);
    if i + 1 < es.len() {
        assert(tail.drop_first() =~= es.skip(i + 1));
        assert(ser_items(tail) =~= ser_entry(es[i]) + ser_items_rest(es, i));
    } else {
        assert(ser_items(tail) =~= ser_entry(es[i]) + ser_items_rest(es, i));
    }
}


/// The position of the first character at or after `i` that is not
/// blank space (the text's length if there is none).
pub open spec fn skip_ws_from(s: Seq<char>, i: int) -> int
    decreases s.len() - i,
{
    if 0 <= i < s.len() && crate::is_ws_char(s[i]) {
        skip_ws_from(s, i + 1)
    } else {
        i
    }
}

/// The position of the first character at or after `i` that is not a
/// decimal digit.
pub open spec fn digits_end(s: Seq<char>, i: int) -> int
    decreases s.len() - i,
{
    if 0 <= i < s.len() && is_digit(s[i]) {
        digits_end(s, i + 1)
    } else {
        i
    }
}

/// Where `digits_end` lands: between `i` and the end, past a run of
/// digits, on a character that is not a digit.
pub proof fn lemma_digits_end(s: Seq<char>, i: int)
    requires
        0 <= i <= s.len(),
    ensures
        i <= digits_end(s, i) <= s.len(),
        digits_end(s, i) < s.len() ==> !is_digit(s[digits_end(s, i)]),
        forall|j: int| i <= j < digits_end(s, i) ==> is_digit(#[trigger] s[j]),
    decreases s.len() - i,
{
    if i < s.len() && is_digit(s[i]) {
        lemma_digits_end(s, i + 1);
    }
}

/// The value of the decimal digits `s[i..j)`.
pub open spec fn dec_val_of(s: Seq<char>, i: int, j: int) -> int
    decreases j - i,
{
    if j <= i {
        0
    } else {
        dec_val_of(s, i, j - 1) * 10 + digit_val(s[j - 1])
    }
}

/// A run of decimal digits has a non-negative value.
pub proof fn lemma_dec_val_nonneg(s: Seq<char>, i: int, j: int)
    requires
        forall|k: int| i <= k < j ==> is_digit(#[trigger] s[k]),
    ensures
        dec_val_of(s, i, j) >= 0,
    decreases j - i,
{
    if j > i {
        lemma_dec_val_nonneg(s, i, j - 1);
    }
}

/// The character a simple backslash escape stands for.
pub open spec fn unescape_simple(e: char) -> Option<char> {
    if e == '"' {
        Some('"')
    } else if e == '\\' {
        Some('\\')
    } else if e == '/' {
        Some('/')
    } else if e == 'b' {
        Some('\u{0008}')
    } else if e == 'f' {
        Some('\u{000C}')
    } else if e == 'n' {
        Some('\n')
    } else if e == 'r' {
        Some('\r')
    } else if e == 't' {
        Some('\t')
    } else {
        None
    }
}

/// True for the hexadecimal digits, in either case.
pub open spec fn is_hex(c: char) -> bool {
    48 <= c as u32 <= 57 || 97 <= c as u32 <= 102 || 65 <= c as u32 <= 70
}

/// The value of a hexadecimal digit.
pub open spec fn hex_val(c: char) -> int {
    if 48 <= c as u32 <= 57 {
        c as u32 - 48
    } else if 97 <= c as u32 <= 102 {
        c as u32 - 87
    } else {
        c as u32 - 55
    }
}

/// The value of the four hexadecimal digits at `s[i..i+4)`.
pub open spec fn hex4_val(s: Seq<char>, i: int) -> int {
    hex_val(s[i]) * 4096 + hex_val(s[i + 1]) * 256 + hex_val(s[i + 2]) * 16 + hex_val(s[i + 3])
}

/// Reads the body of a JSON string starting at `i` (just past the
/// opening quote): the characters it denotes, and the position just
/// past the closing quote. Unescaped control characters, lone
/// backslashes, unknown escapes and surrogate code points are refused.
pub open spec fn parse_str_chars(s: Seq<char>, i: int) -> Option<(Seq<char>, int)>
    decreases s.len() - i,
{
    if !(0 <= i < s.len()) {
        None
    } else if s[i] == '"' {
        Some((Seq::empty(), i + 1))
    } else if s[i] == '\\' {
        if i + 1 < s.len() {
            let e = s[i + 1];
            if e == 'u' {
                if i + 6 <= s.len() && is_hex(s[i + 2]) && is_hex(s[i + 3]) && is_hex(s[i + 4])
                    && is_hex(s[i + 5]) {
                    let v = hex4_val(s, i + 2);
                    if 0xD800 <= v < 0xE000 {
                        None
                    } else {
                        match parse_str_chars(s, i + 6) {
                            Some((cs, j)) => Some((seq![((v as u32) as char)] + cs, j)),
                            None => None,
                        }
                    }
                } else {
                    None
                }
            } else {
                match unescape_simple(e) {
                    Some(c) => match parse_str_chars(s, i + 2) {
                        Some((cs, j)) => Some((seq![c] + cs, j)),
                        None => None,
                    },
                    None => None,
                }
            }
        } else {
            None
        }
    } else if (s[i] as u32) >= 32 {
        match parse_str_chars(s, i + 1) {
            Some((cs, j)) => Some((seq![s[i]] + cs, j)),
            None => None,
        }
    } else {
        None
    }
}

/// Reads an unsigned decimal integer starting at `i`: its value and
/// the position just past its digits. Leading zeros and values that
/// do not fit the entry's integer type are refused.
pub open spec fn parse_number_at(s: Seq<char>, i: int) -> Option<(int, int)> {
    let e = digits_end(s, i);
    if e <= i {
        None
    } else if s[i] == '0' && e > i + 1 {
        None
    } else {
        let v = dec_val_of(s, i, e);
        if v > usize::MAX as int {
            None
        } else {
            Some((v, e))
        }
    }
}

/// Reads a quoted key followed by blank space, a colon and blank
/// space: the key's characters and the position where the value starts.
pub open spec fn parse_key_colon(s: Seq<char>, i: int) -> Option<(Seq<char>, int)> {
    if 0 <= i < s.len() && s[i] == '"' {
        match parse_str_chars(s, i + 1) {
            Some((key, k)) => {
                let k2 = skip_ws_from(s, k);
                if k2 < s.len() && s[k2] == ':' {
                    Some((key, skip_ws_from(s, k2 + 1)))
                } else {
                    None
                }
            },
            None => None,
        }
    } else {
        None
    }
}

/// Reads a quoted string value starting at `i`.
pub open spec fn parse_str_value(s: Seq<char>, i: int) -> Option<(Seq<char>, int)> {
    if 0 <= i < s.len() && s[i] == '"' {
        parse_str_chars(s, i + 1)
    } else {
        None
    }
}

/// Reads the closing brace of an object, allowing blank space before
/// it: the position just past the brace.
pub open spec fn parse_close_brace(s: Seq<char>, i: int) -> Option<int> {
    let q = skip_ws_from(s, i);
    if q < s.len() && s[q] == '}' {
        Some(q + 1)
    } else {
        None
    }
}

/// Reads one entry object starting at `i` (on its opening brace): the
/// entry and the position just past its closing brace. The two known
/// fields must each appear exactly once, in either order.
pub open spec fn parse_entry_at(s: Seq<char>, i: int) -> Option<(EntryV, int)> {
    if 0 <= i < s.len() && s[i] == '{' {
        let j = skip_ws_from(s, i + 1);
        match parse_key_colon(s, j) {
            Some((key1, p1)) => if key1 == name_key() {
                match parse_str_value(s, p1) {
                    Some((nm, p2)) => {
                        let p3 = skip_ws_from(s, p2);
                        if p3 < s.len() && s[p3] == ',' {
                            match parse_key_colon(s, skip_ws_from(s, p3 + 1)) {
                                Some((key2, p4)) => if key2 == time_key() {
                                    match parse_number_at(s, p4) {
                                        Some((tm, p5)) => match parse_close_brace(s, p5) {
                                            Some(q) => Some(
                                                (EntryV { name: nm, time: tm as nat }, q),
                                            ),
                                            None => None,
                                        },
                                        None => None,
                                    }
                                } else {
                                    None
                                },
                                None => None,
                            }
                        } else {
                            None
                        }
                    },
                    None => None,
                }
            } else if key1 == time_key() {
                match parse_number_at(s, p1) {
                    Some((tm, p2)) => {
                        let p3 = skip_ws_from(s, p2);
                        if p3 < s.len() && s[p3] == ',' {
                            match parse_key_colon(s, skip_ws_from(s, p3 + 1)) {
                                Some((key2, p4)) => if key2 == name_key() {
                                    match parse_str_value(s, p4) {
                                        Some((nm, p5)) => match parse_close_brace(s, p5) {
                                            Some(q) => Some(
                                                (EntryV { name: nm, time: tm as nat }, q),
                                            ),
                                            None => None,
                                        },
                                        None => None,
                                    }
                                } else {
                                    None
                                },
                                None => None,
                            }
                        } else {
                            None
                        }
                    },
                    None => None,
                }
            } else {
                None
            },
            None => None,
        }
    } else {
        None
    }
}

/// Reads the array items starting at `i` (with blank space allowed
/// before the first entry): the entries read and the position of the
/// first character after the last entry and its trailing blank space.
pub open spec fn parse_items(s: Seq<char>, i: int) -> Option<(Seq<EntryV>, int)>
    decreases s.len() - i,
{
    match parse_entry_at(s, skip_ws_from(s, i)) {
        Some((e, j)) => {
            let k = skip_ws_from(s, j);
            if k < s.len() && s[k] == ',' {
                if 0 <= i <= k {
                    match parse_items(s, k + 1) {
                        Some((es, m)) => Some((seq![e] + es, m)),
                        None => None,
                    }
                } else {
                    None
                }
            } else {
                Some((seq![e], k))
            }
        },
        None => None,
    }
}

/// Reads a whole store file: a JSON array of entry objects, possibly
/// empty, with blank space allowed around the array and its items.
pub open spec fn parse_text(s: Seq<char>) -> Option<Seq<EntryV>> {
    let i = skip_ws_from(s, 0);
    if i < s.len() && s[i] == '[' {
        let j = skip_ws_from(s, i + 1);
        if j < s.len() && s[j] == ']' {
            if skip_ws_from(s, j + 1) == s.len() {
                Some(Seq::empty())
            } else {
                None
            }
        } else {
            match parse_items(s, i + 1) {
                Some((es, k)) => if k < s.len() && s[k] == ']' && skip_ws_from(s, k + 1)
                    == s.len() {
                    Some(es)
                } else {
                    None
                },
                None => None,
            }
        }
    } else {
        None
    }
}


/// Prefixes already-read characters to the result of a string parse.
pub open spec fn prepend_parse(acc: Seq<char>, r: Option<(Seq<char>, int)>) -> Option<
    (Seq<char>, int),
> {
    match r {
        Some((cs, j)) => Some((acc + cs, j)),
        None => None,
    }
}

/// Reading one more character and prefixing it afterwards comes to
/// the same thing.
proof fn lemma_prepend_cons(acc: Seq<char>, c: char, rest: Option<(Seq<char>, int)>)
    ensures
        prepend_parse(acc.push(c), rest) == prepend_parse(
            acc,
            match rest {
                Some((cs, j)) => Some((seq![c] + cs, j)),
                None => None,
            },
        ),
{
    match rest {
        Some((cs, j)) => {
            assert(acc.push(c) + cs =~= acc + (seq![c] + cs));
        },
        None => {},
    }
}

/// Reads the characters of `s` into a vector.
pub fn str_chars(s: &str) -> (r: Vec<char>)
    ensures
        r@ == s@,
{
    let len = s.unicode_len();
    let mut out: Vec<char> = Vec::new();
    let mut i: usize = 0;
    proof {
        assert(out@ =~= s@.take(0));
    }
    while i < len
        invariant
            len == s@.len(),
            0 <= i <= len,
            out@ == s@.take(i as int),
        decreases len - i,
    {
        let c = s.get_char(i);
        out.push(c);
        proof {
            assert(s@.take(i + 1) =~= s@.take(i as int).push(s@[i as int]));
        }
        i = i + 1;
    }
    proof {
        assert(s@.take(len as int) =~= s@);
    }
    out
}

/// Finds the first non-blank position at or after `i`.
fn skip_ws_at(v: &Vec<char>, i: usize) -> (j: usize)
    requires
        i <= v.len(),
    ensures
        j as int == skip_ws_from(v@, i as int),
        i <= j <= v.len(),
{
    let mut cur = i;
    while cur < v.len() && (v[cur] == ' ' || v[cur] == '\t' || v[cur] == '\n' || v[cur] == '\r')
        invariant
            i <= cur <= v.len(),
            skip_ws_from(v@, i as int) == skip_ws_from(v@, cur as int),
        decreases v.len() - cur,
    {
        cur = cur + 1;
    }
    cur
}

/// Reads the body of a JSON string starting at `i`, just past the
/// opening quote: the characters it denotes and the position just past
/// the closing quote.
fn parse_string_at(v: &Vec<char>, i: usize) -> (r: Option<(Vec<char>, usize)>)
    requires
        i <= v.len(),
    ensures
        match r {
            Some((cs, j)) => parse_str_chars(v@, i as int) == Some((cs@, j as int)) && i < j
                <= v.len(),
            None => parse_str_chars(v@, i as int) is None,
        },
{
    let mut acc: Vec<char> = Vec::new();
    let mut cur = i;
    proof {
        assert(acc@ + parse_str_chars(v@, i as int)->Some_0.0 =~= parse_str_chars(
            v@,
            i as int,
        )->Some_0.0);
    }
    loop
        invariant
            i <= cur <= v.len(),
            parse_str_chars(v@, i as int) == prepend_parse(acc@, parse_str_chars(v@, cur as int)),
        decreases v.len() - cur,
    {
        if cur == v.len() {
            return None;
        }
        let c = v[cur];
        if c == '"' {
            proof {
                assert(acc@ + Seq::<char>::empty() =~= acc@);
            }
            return Some((acc, cur + 1));
        } else if c == '\\' {
            if v.len() - cur < 2 {
                return None;
            }
            let e = v[cur + 1];
            if e == 'u' {
                if v.len() - cur < 6 {
                    return None;
                }
                let c0 = v[cur + 2];
                let c1 = v[cur + 3];
                let c2 = v[cur + 4];
                let c3 = v[cur + 5];
                if !(is_hex_exec(c0) && is_hex_exec(c1) && is_hex_exec(c2) && is_hex_exec(c3)) {
                    return None;
                }
                let val: u32 = hex_val_exec(c0) * 4096 + hex_val_exec(c1) * 256 + hex_val_exec(c2)
                    * 16 + hex_val_exec(c3);
                if 0xD800 <= val && val < 0xE000 {
                    return None;
                }
                let ch = crate::text::char_from_u32(val);
                let ghost old_acc = acc@;
                acc.push(ch);
                proof {
                    assert(val as int == hex4_val(v@, cur as int + 2));
                    assert(ch == ((hex4_val(v@, cur as int + 2) as u32) as char));
                    lemma_prepend_cons(old_acc, ch, parse_str_chars(v@, cur as int + 6));
                }
                cur = cur + 6;
            } else {
                let decoded: char = if e == '"' {
                    '"'
                } else if e == '\\' {
                    '\\'
                } else if e == '/' {
                    '/'
                } else if e == 'b' {
                    '\u{0008}'
                } else if e == 'f' {
                    '\u{000C}'
                } else if e == 'n' {
                    '\n'
                } else if e == 'r' {
                    '\r'
                } else if e == 't' {
                    '\t'
                } else {
                    return None;
                };
                let ghost old_acc = acc@;
                acc.push(decoded);
                proof {
                    assert(unescape_simple(v@[cur as int + 1]) == Some(decoded));
                    lemma_prepend_cons(old_acc, decoded, parse_str_chars(v@, cur as int + 2));
                }
                cur = cur + 2;
            }
        } else {
            let u: u32 = c as u32;
            if u < 32 {
                return None;
            }
            let ghost old_acc = acc@;
            acc.push(c);
            proof {
                lemma_prepend_cons(old_acc, c, parse_str_chars(v@, cur as int + 1));
            }
            cur = cur + 1;
        }
    }
}

/// Decides whether `c` is a hexadecimal digit.
fn is_hex_exec(c: char) -> (r: bool)
    ensures
        r == is_hex(c),
{
    let u: u32 = c as u32;
    (48 <= u && u <= 57) || (97 <= u && u <= 102) || (65 <= u && u <= 70)
}

/// The value of the hexadecimal digit `c`.
fn hex_val_exec(c: char) -> (r: u32)
    requires
        is_hex(c),
    ensures
        r as int == hex_val(c),
        r < 16,
{
    let u: u32 = c as u32;
    if 48 <= u && u <= 57 {
        u - 48
    } else if 97 <= u && u <= 102 {
        u - 87
    } else {
        u - 55
    }
}

/// Reads an unsigned decimal integer starting at `i`.
fn parse_number_exec(v: &Vec<char>, i: usize) -> (r: Option<(usize, usize)>)
    requires
        i <= v.len(),
    ensures
        match r {
            Some((n, j)) => parse_number_at(v@, i as int) == Some((n as int, j as int)) && i < j
                <= v.len(),
            None => parse_number_at(v@, i as int) is None,
        },
{
    let mut end = i;
    while end < v.len() && 48 <= (v[end] as u32) && (v[end] as u32) <= 57
        invariant
            i <= end <= v.len(),
            digits_end(v@, i as int) == digits_end(v@, end as int),
        decreases v.len() - end,
    {
        end = end + 1;
    }
    proof {
        assert(digits_end(v@, i as int) == end as int);
        lemma_digits_end(v@, i as int);
    }
    if end == i {
        return None;
    }
    if v[i] == '0' && end > i + 1 {
        return None;
    }
    let mut acc: u128 = 0;
    let mut over = false;
    let mut cur = i;
    while cur < end
        invariant
            i <= cur <= end <= v.len(),
            end as int == digits_end(v@, i as int),
            forall|k: int| i <= k < end ==> is_digit(#[trigger] v@[k]),
            !over ==> acc as int == dec_val_of(v@, i as int, cur as int) && acc <= usize::MAX
                as u128,
            over ==> dec_val_of(v@, i as int, cur as int) > usize::MAX as int,
        decreases end - cur,
    {
        let d: u32 = (v[cur] as u32) - 48;
        proof {
            lemma_dec_val_nonneg(v@, i as int, cur as int);
        }
        if !over {
            acc = acc * 10 + (d as u128);
            if acc > (usize::MAX as u128) {
                over = true;
            }
        }
        cur = cur + 1;
    }
    if over {
        return None;
    }
    let n: usize = acc as usize;
    Some((n, end))
}

/// Whether the key just read is the name field's key.
fn key_is_name(cs: &Vec<char>) -> (r: bool)
    ensures
        r == (cs@ == name_key()),
{
    let r = cs.len() == 4 && cs[0] == 'n' && cs[1] == 'a' && cs[2] == 'm' && cs[3] == 'e';
    proof {
        if r {
            assert(cs@ =~= name_key());
        } else {
            assert(cs@ != name_key());
        }
    }
    r
}

/// Whether the key just read is the time field's key.
fn key_is_time(cs: &Vec<char>) -> (r: bool)
    ensures
        r == (cs@ == time_key()),
{
    let r = cs.len() == 16 && cs[0] == 't' && cs[1] == 'o' && cs[2] == 't' && cs[3] == 'a'
        && cs[4] == 'l' && cs[5] == '_' && cs[6] == 't' && cs[7] == 'i' && cs[8] == 'm'
        && cs[9] == 'e' && cs[10] == '_' && cs[11] == 's' && cs[12] == 'p' && cs[13] == 'e'
        && cs[14] == 'n' && cs[15] == 't';
    proof {
        if r {
            assert(cs@ =~= time_key());
        } else {
            assert(cs@ != time_key());
        }
    }
    r
}

/// Reads a quoted key, the colon after it and the surrounding blank
/// space: the key and the position where the value starts.
fn parse_key_colon_exec(v: &Vec<char>, i: usize) -> (r: Option<(Vec<char>, usize)>)
    requires
        i <= v.len(),
    ensures
        match r {
            Some((key, j)) => parse_key_colon(v@, i as int) == Some((key@, j as int)) && i < j
                <= v.len(),
            None => parse_key_colon(v@, i as int) is None,
        },
{
    if i == v.len() || v[i] != '"' {
        return None;
    }
    match parse_string_at(v, i + 1) {
        Some((key, k)) => {
            let k2 = skip_ws_at(v, k);
            if k2 < v.len() && v[k2] == ':' {
                let j = skip_ws_at(v, k2 + 1);
                Some((key, j))
            } else {
                None
            }
        },
        None => None,
    }
}

/// Reads a quoted string value starting at `i`.
fn parse_str_value_exec(v: &Vec<char>, i: usize) -> (r: Option<(Vec<char>, usize)>)
    requires
        i <= v.len(),
    ensures
        match r {
            Some((cs, j)) => parse_str_value(v@, i as int) == Some((cs@, j as int)) && i < j
                <= v.len(),
            None => parse_str_value(v@, i as int) is None,
        },
{
    if i == v.len() || v[i] != '"' {
        return None;
    }
    parse_string_at(v, i + 1)
}

/// Reads the closing brace of an object, allowing blank space before it.
fn parse_close_brace_exec(v: &Vec<char>, i: usize) -> (r: Option<usize>)
    requires
        i <= v.len(),
    ensures
        match r {
            Some(q) => parse_close_brace(v@, i as int) == Some(q as int) && i < q <= v.len(),
            None => parse_close_brace(v@, i as int) is None,
        },
{
    let q = skip_ws_at(v, i);
    if q < v.len() && v[q] == '}' {
        Some(q + 1)
    } else {
        None
    }
}

/// Reads one entry object starting at `i`, on its opening brace.
fn parse_entry_exec(v: &Vec<char>, i: usize) -> (r: Option<(SkillEntry, usize)>)
    requires
        i <= v.len(),
    ensures
        match r {
            Some((ent, j)) => parse_entry_at(v@, i as int) == Some((ent@, j as int)) && i < j
                <= v.len(),
            None => parse_entry_at(v@, i as int) is None,
        },
{
    if i == v.len() || v[i] != '{' {
        return None;
    }
    let j = skip_ws_at(v, i + 1);
    let (key1, p1) = match parse_key_colon_exec(v, j) {
        Some(x) => x,
        None => {
            return None;
        },
    };
    if key_is_name(&key1) {
        let (nm, p2) = match parse_str_value_exec(v, p1) {
            Some(x) => x,
            None => {
                return None;
            },
        };
        let p3 = skip_ws_at(v, p2);
        if !(p3 < v.len() && v[p3] == ',') {
            return None;
        }
        let p3b = skip_ws_at(v, p3 + 1);
        let (key2, p4) = match parse_key_colon_exec(v, p3b) {
            Some(x) => x,
            None => {
                return None;
            },
        };
        if !key_is_time(&key2) {
            return None;
        }
        let (tm, p5) = match parse_number_exec(v, p4) {
            Some(x) => x,
            None => {
                return None;
            },
        };
        let q = match parse_close_brace_exec(v, p5) {
            Some(x) => x,
            None => {
                return None;
            },
        };
        let ent = SkillEntry { name: crate::text::chars_to_string(&nm), total_time_spent: tm };
        proof {
            assert(ent@ =~= EntryV { name: nm@, time: tm as nat });
        }
        Some((ent, q))
    } else if key_is_time(&key1) {
        let (tm, p2) = match parse_number_exec(v, p1) {
            Some(x) => x,
            None => {
                return None;
            },
        };
        let p3 = skip_ws_at(v, p2);
        if !(p3 < v.len() && v[p3] == ',') {
            return None;
        }
        let p3b = skip_ws_at(v, p3 + 1);
        let (key2, p4) = match parse_key_colon_exec(v, p3b) {
            Some(x) => x,
            None => {
                return None;
            },
        };
        if !key_is_name(&key2) {
            return None;
        }
        let (nm, p5) = match parse_str_value_exec(v, p4) {
            Some(x) => x,
            None => {
                return None;
            },
        };
        let q = match parse_close_brace_exec(v, p5) {
            Some(x) => x,
            None => {
                return None;
            },
        };
        let ent = SkillEntry { name: crate::text::chars_to_string(&nm), total_time_spent: tm };
        proof {
            assert(ent@ =~= EntryV { name: nm@, time: tm as nat });
        }
        Some((ent, q))
    } else {
        None
    }
}

/// Prefixes already-read entries to the result of an items parse.
pub open spec fn prepend_items(acc: Seq<EntryV>, r: Option<(Seq<EntryV>, int)>) -> Option<
    (Seq<EntryV>, int),
> {
    match r {
        Some((es, m)) => Some((acc + es, m)),
        None => None,
    }
}

/// Reads the array items starting at `i`.
fn parse_items_exec(v: &Vec<char>, i: usize) -> (r: Option<(Vec<SkillEntry>, usize)>)
    requires
        i <= v.len(),
    ensures
        match r {
            Some((es, m)) => parse_items(v@, i as int) == Some((es.deep_view(), m as int)) && i
                <= m <= v.len(),
            None => parse_items(v@, i as int) is None,
        },
{
    let mut acc: Vec<SkillEntry> = Vec::new();
    let mut cur = i;
    proof {
        assert(acc.deep_view() =~= Seq::<EntryV>::empty());
        assert(parse_items(v@, i as int) == prepend_items(
            acc.deep_view(),
            parse_items(v@, cur as int),
        )) by {
            match parse_items(v@, cur as int) {
                Some((es, m)) => {
                    assert(acc.deep_view() + es =~= es);
                },
                None => {},
            }
        }
    }
    loop
        invariant
            i <= cur <= v.len(),
            parse_items(v@, i as int) == prepend_items(
                acc.deep_view(),
                parse_items(v@, cur as int),
            ),
        decreases v.len() - cur,
    {
        let j = skip_ws_at(v, cur);
        let (ent, p) = match parse_entry_exec(v, j) {
            Some(x) => x,
            None => {
                return None;
            },
        };
        let k = skip_ws_at(v, p);
        let ghost old_acc = acc.deep_view();
        if k < v.len() && v[k] == ',' {
            acc.push(ent);
            proof {
                assert(acc.deep_view() =~= old_acc.push(ent@));
                assert(parse_items(v@, cur as int) == (match parse_items(v@, k as int + 1) {
                    Some((es, m)) => Some((seq![ent@] + es, m)),
                    None => None,
                }));
                match parse_items(v@, k as int + 1) {
                    Some((es, m)) => {
                        assert(old_acc.push(ent@) + es =~= old_acc + (seq![ent@] + es));
                    },
                    None => {},
                }
            }
            cur = k + 1;
        } else {
            acc.push(ent);
            proof {
                assert(acc.deep_view() =~= old_acc.push(ent@));
                assert(parse_items(v@, cur as int) == Some((seq![ent@], k as int)));
                assert(old_acc.push(ent@) =~= old_acc + seq![ent@]);
            }
            return Some((acc, k));
        }
    }
}

/// Reads a whole store file: `Some` with the entries exactly when the
/// text is a JSON array of entry objects, `None` otherwise.
pub fn parse_entries(s: &str) -> (r: Option<Vec<SkillEntry>>)
    ensures
        match r {
            Some(es) => parse_text(s@) == Some(es.deep_view()),
            None => parse_text(s@) is None,
        },
{
    let v = str_chars(s);
    let i = skip_ws_at(&v, 0);
    if !(i < v.len() && v[i] == '[') {
        return None;
    }
    let j = skip_ws_at(&v, i + 1);
    if j < v.len() && v[j] == ']' {
        if skip_ws_at(&v, j + 1) == v.len() {
            let out: Vec<SkillEntry> = Vec::new();
            proof {
                assert(out.deep_view() =~= Seq::<EntryV>::empty());
            }
            Some(out)
        } else {
            None
        }
    } else {
        match parse_items_exec(&v, i + 1) {
            Some((es, k)) => {
                if k < v.len() && v[k] == ']' && skip_ws_at(&v, k + 1) == v.len() {
                    Some(es)
                } else {
                    None
                }
            },
            None => None,
        }
    }
}


/// A match against a split text is a match against each half.
proof fn lemma_match_at_split(t: Seq<char>, p: int, a: Seq<char>, b: Seq<char>)
    requires
        crate::util::match_at(t, a + b, p),
    ensures
        crate::util::match_at(t, a, p),
        crate::util::match_at(t, b, p + a.len()),
{
    assert forall|j: int| 0 <= j < a.len() implies t[p + j] == #[trigger] a[j] by {
        assert(t[p + j] == (a + b)[j]);
    }
    assert forall|j: int| 0 <= j < b.len() implies t[p + a.len() + j] == #[trigger] b[j] by {
        assert(t[p + (a.len() + j)] == (a + b)[a.len() + j]);
    }
}

/// The hexadecimal digit characters read back as their values.
proof fn lemma_hex_digit(d: int)
    requires
        0 <= d < 16,
    ensures
        is_hex(hex_digit_char(d)),
        hex_val(hex_digit_char(d)) == d,
{
}

/// The decimal digit characters read back as their values.
proof fn lemma_dec_digit(d: int)
    requires
        0 <= d < 10,
    ensures
        is_digit(dec_digit_char(d)),
        digit_val(dec_digit_char(d)) == d,
{
}

/// A written number is made of decimal digits, at least one.
proof fn lemma_dec_digits_are_digits(n: nat)
    ensures
        dec_digits(n).len() >= 1,
        forall|j: int| 0 <= j < dec_digits(n).len() ==> is_digit(#[trigger] dec_digits(n)[j]),
    decreases n,
{
    if n < 10 {
        lemma_dec_digit(n as int);
    } else {
        lemma_dec_digits_are_digits(n / 10);
        lemma_dec_digit((n % 10) as int);
    }
}

/// A written number never starts with a leading zero unless it is zero
/// itself.
proof fn lemma_dec_digits_first(n: nat)
    ensures
        n >= 1 ==> dec_digits(n)[0] != '0',
    decreases n,
{
    if n >= 10 {
        lemma_dec_digits_first(n / 10);
        assert(dec_digits(n)[0] == dec_digits(n / 10)[0]) by {
            lemma_dec_digits_are_digits(n / 10);
        }
    }
}

/// Where a run of digits provably ends.
proof fn lemma_digits_end_exact(t: Seq<char>, i: int, e: int)
    requires
        0 <= i <= e <= t.len(),
        forall|k: int| i <= k < e ==> is_digit(#[trigger] t[k]),
        e < t.len() ==> !is_digit(t[e]),
    ensures
        digits_end(t, i) == e,
    decreases e - i,
{
    if i < e {
        lemma_digits_end_exact(t, i + 1, e);
    }
}

/// The digits of `n`, read back left to right, give `n`.
proof fn lemma_dec_val_matches(t: Seq<char>, i: int, n: nat)
    requires
        0 <= i,
        crate::util::match_at(t, dec_digits(n), i),
    ensures
        dec_val_of(t, i, i + dec_digits(n).len()) == n,
    decreases n,
{
    if n < 10 {
        assert(t[i] == dec_digits(n)[0]);
        lemma_dec_digit(n as int);
        assert(dec_val_of(t, i, i) == 0);
        assert(dec_val_of(t, i, i + 1) == digit_val(t[i]));
    } else {
        let hd = dec_digits(n / 10);
        let last = seq![dec_digit_char((n % 10) as int)];
        assert(dec_digits(n) == hd + last);
        lemma_match_at_split(t, i, hd, last);
        lemma_dec_val_matches(t, i, n / 10);
        lemma_dec_digit((n % 10) as int);
        assert(t[i + hd.len()] == last[0]);
        assert(dec_val_of(t, i, i + hd.len() + 1) == dec_val_of(t, i, i + hd.len()) * 10
            + digit_val(t[i + hd.len()]));
    }
}

/// A written number, with no digit right after it, parses back to its
/// value.
proof fn lemma_parse_number_digits(t: Seq<char>, i: int, n: nat)
    requires
        0 <= i,
        i + dec_digits(n).len() <= t.len(),
        crate::util::match_at(t, dec_digits(n), i),
        i + dec_digits(n).len() < t.len() ==> !is_digit(t[i + dec_digits(n).len()]),
        n <= usize::MAX,
    ensures
        parse_number_at(t, i) == Some((n as int, i + dec_digits(n).len())),
{
    let e = i + dec_digits(n).len();
    lemma_dec_digits_are_digits(n);
    assert forall|k: int| i <= k < e implies is_digit(#[trigger] t[k]) by {
        assert(t[k] == dec_digits(n)[k - i]);
    }
    lemma_digits_end_exact(t, i, e);
    lemma_dec_val_matches(t, i, n);
    if n < 10 {
        assert(e == i + 1);
    } else {
        lemma_dec_digits_first(n);
        assert(t[i] == dec_digits(n)[0]);
        assert(t[i] != '0');
    }
}

/// A text with no quote, no backslash and no control character is
/// written as itself.
proof fn lemma_escape_plain(s: Seq<char>)
    requires
        forall|j: int|
            0 <= j < s.len() ==> s[j] != '"' && s[j] != '\\' && (#[trigger] s[j]) as u32 >= 32,
    ensures
        escape_string(s) == s,
    decreases s.len(),
{
    if s.len() == 0 {
        assert(escape_string(s) =~= s);
    } else {
        lemma_escape_plain(s.drop_first());
        assert(escape_char(s[0]) == seq![s[0]]);
        assert(escape_string(s) =~= s);
    }
}

/// A character below the control boundary comes back unchanged from a
/// round trip through its code point.
proof fn lemma_char_low_round_trip(c: char)
    requires
        (c as u32) < 32,
    ensures
        ((c as u32) as char) == c,
{
}

/// A written string body, followed by its closing quote, reads back as
/// the original characters, ending just past the quote.
proof fn lemma_parse_escaped(t: Seq<char>, i: int, name: Seq<char>)
    requires
        0 <= i,
        i + escape_string(name).len() + 1 <= t.len(),
        crate::util::match_at(t, escape_string(name), i),
        t[i + escape_string(name).len()] == '"',
    ensures
        parse_str_chars(t, i) == Some((name, i + escape_string(name).len() + 1)),
    decreases name.len(),
{
    if name.len() == 0 {
        assert(escape_string(name).len() == 0);
        assert(t[i] == '"');
        assert(name =~= Seq::<char>::empty());
    } else {
        let c = name[0];
        let rest = name.drop_first();
        let ec = escape_char(c);
        let er = escape_string(rest);
        assert(escape_string(name) == ec + er);
        lemma_match_at_split(t, i, ec, er);
        lemma_parse_escaped(t, i + ec.len(), rest);
        assert(seq![c] + rest =~= name);
        let end = i + escape_string(name).len() + 1;
        if c == '"' {
            assert(t[i] == '\\' && t[i + 1] == '"');
            assert(unescape_simple(t[i + 1]) == Some('"'));
            assert(parse_str_chars(t, i) == Some((name, end)));
        } else if c == '\\' {
            assert(t[i] == '\\' && t[i + 1] == '\\');
            assert(unescape_simple(t[i + 1]) == Some('\\'));
            assert(parse_str_chars(t, i) == Some((name, end)));
        } else if (c as u32) < 32 {
            let hi = (c as u32 / 16) as int;
            let lo = (c as u32 % 16) as int;
            assert(0 <= hi < 16 && 0 <= lo < 16);
            assert(t[i] == ec[0] && t[i + 1] == ec[1] && t[i + 2] == ec[2] && t[i + 3] == ec[3]
                && t[i + 4] == ec[4] && t[i + 5] == ec[5]);
            assert(ec[0] == '\\' && ec[1] == 'u' && ec[2] == '0' && ec[3] == '0' && ec[4]
                == hex_digit_char(hi) && ec[5] == hex_digit_char(lo));
            lemma_hex_digit(hi);
            lemma_hex_digit(lo);
            assert(is_hex('0') && hex_val('0') == 0);
            assert(is_hex(t[i + 2]) && is_hex(t[i + 3]) && is_hex(t[i + 4]) && is_hex(t[i + 5]));
            let v = hex4_val(t, i + 2);
            assert(v == hex_val(t[i + 2]) * 4096 + hex_val(t[i + 3]) * 256 + hex_val(t[i + 4])
                * 16 + hex_val(t[i + 5]));
            assert(v == hi * 16 + lo);
            assert(c as u32 == 16 * (c as u32 / 16) + (c as u32 % 16)) by (nonlinear_arith);
            assert(v == c as u32);
            assert(0 <= v < 32);
            assert((v as u32) == (c as u32));
            lemma_char_low_round_trip(c);
            assert(((v as u32) as char) == c);
            assert(parse_str_chars(t, i) == Some((name, end)));
        } else {
            assert(ec == seq![c]);
            assert(t[i] == c);
            assert(parse_str_chars(t, i) == Some((name, end)));
        }
    }
}

/// A written key with its colon, blank-free as the writer leaves them,
/// reads back as that key, ending where the value starts.
proof fn lemma_parse_key_ser(t: Seq<char>, p: int, key: Seq<char>)
    requires
        0 <= p,
        escape_string(key) == key,
        p + key.len() + 3 < t.len(),
        t[p] == '"',
        crate::util::match_at(t, key, p + 1),
        t[p + 1 + key.len()] == '"',
        t[p + 2 + key.len()] == ':',
        !crate::is_ws_char(t[p + 3 + key.len()]),
    ensures
        parse_key_colon(t, p) == Some((key, p + key.len() + 3)),
{
    assert(crate::util::match_at(t, escape_string(key), p + 1));
    lemma_parse_escaped(t, p + 1, key);
    let k = p + key.len() + 2;
    assert(skip_ws_from(t, k) == k);
    assert(skip_ws_from(t, k + 1) == k + 1);
}

/// Where each piece of a written entry stands in the text.
#[verifier::spinoff_prover]
#[verifier::rlimit(100)]
proof fn lemma_ser_entry_layout(t: Seq<char>, i: int, e: EntryV)
    requires
        0 <= i,
        i + ser_entry(e).len() <= t.len(),
        crate::util::match_at(t, ser_entry(e), i),
    ensures
        ser_entry(e).len() == 31 + escape_string(e.name).len() + dec_digits(e.time).len(),
        t[i] == '{' && t[i + 1] == '"',
        crate::util::match_at(t, name_key(), i + 2),
        t[i + 6] == '"' && t[i + 7] == ':' && t[i + 8] == '"',
        crate::util::match_at(t, escape_string(e.name), i + 9),
        t[i + 9 + escape_string(e.name).len()] == '"',
        t[i + 10 + escape_string(e.name).len()] == ',',
        t[i + 11 + escape_string(e.name).len()] == '"',
        crate::util::match_at(t, time_key(), i + 12 + escape_string(e.name).len()),
        t[i + 28 + escape_string(e.name).len()] == '"',
        t[i + 29 + escape_string(e.name).len()] == ':',
        crate::util::match_at(t, dec_digits(e.time), i + 30 + escape_string(e.name).len()),
        t[i + 30 + escape_string(e.name).len() + dec_digits(e.time).len()] == '}',
{
    let f1 = seq!['{', '"'];
    let f2 = seq!['"', ':', '"'];
    let f3 = seq!['"', ',', '"'];
    let f4 = seq!['"', ':'];
    let en = escape_string(e.name);
    let dd = dec_digits(e.time);
    let lname = name_key().len();
    let ltime = time_key().len();
    let el = en.len();
    let dl = dd.len();
    assert(ser_entry(e) =~= f1 + (name_key() + (f2 + (en + (f3 + (time_key() + (f4 + (dd
        + seq!['}'])))))))); 
    lemma_match_at_split(t, i, f1, name_key() + (f2 + (en + (f3 + (time_key() + (f4 + (dd
        + seq!['}'])))))));
    lemma_match_at_split(t, i + 2, name_key(), f2 + (en + (f3 + (time_key() + (f4 + (dd
        + seq!['}']))))));
    lemma_match_at_split(t, i + 2 + lname, f2, en + (f3 + (time_key() + (f4 + (dd
        + seq!['}'])))));
    lemma_match_at_split(t, i + 5 + lname, en, f3 + (time_key() + (f4 + (dd + seq!['}']))));
    lemma_match_at_split(t, i + 5 + lname + el, f3, time_key() + (f4 + (dd + seq!['}'])));
    lemma_match_at_split(t, i + 8 + lname + el, time_key(), f4 + (dd + seq!['}']));
    lemma_match_at_split(t, i + 8 + lname + el + ltime, f4, dd + seq!['}']);
    lemma_match_at_split(t, i + 10 + lname + el + ltime, dd, seq!['}']);
    assert(lname == 4 && ltime == 16);
    assert(t[i] == f1[0] && t[i + 1] == f1[1]);
    assert(t[i + 6] == f2[0] && t[i + 7] == f2[1] && t[i + 8] == f2[2]);
    assert(t[i + 9 + el] == f3[0] && t[i + 10 + el] == f3[1] && t[i + 11 + el] == f3[2]);
    assert(t[i + 28 + el] == f4[0] && t[i + 29 + el] == f4[1]);
    assert(t[i + 30 + el + dl] == seq!['}'][0]);
}

/// A written entry reads back as that entry, ending just past its
/// closing brace.
#[verifier::spinoff_prover]
#[verifier::rlimit(100)]
proof fn lemma_parse_ser_entry(t: Seq<char>, i: int, e: EntryV)
    requires
        0 <= i,
        i + ser_entry(e).len() <= t.len(),
        crate::util::match_at(t, ser_entry(e), i),
        e.time <= usize::MAX,
    ensures
        parse_entry_at(t, i) == Some((e, i + ser_entry(e).len())),
        t[i] == '{',
{
    lemma_ser_entry_layout(t, i, e);
    let el = escape_string(e.name).len() as int;
    let dl = dec_digits(e.time).len() as int;
    assert(forall|j: int|
        0 <= j < name_key().len() ==> name_key()[j] != '"' && name_key()[j] != '\\' && (
        #[trigger] name_key()[j]) as u32 >= 32);
    lemma_escape_plain(name_key());
    assert(forall|j: int|
        0 <= j < time_key().len() ==> time_key()[j] != '"' && time_key()[j] != '\\' && (
        #[trigger] time_key()[j]) as u32 >= 32);
    lemma_escape_plain(time_key());
    lemma_dec_digits_are_digits(e.time);

    assert(skip_ws_from(t, i + 1) == i + 1);
    lemma_parse_key_ser(t, i + 1, name_key());
    assert(parse_key_colon(t, i + 1) == Some((name_key(), i + 8)));
    lemma_parse_escaped(t, i + 9, e.name);
    assert(parse_str_value(t, i + 8) == Some((e.name, i + 10 + el)));
    assert(skip_ws_from(t, i + 10 + el) == i + 10 + el);
    assert(t[i + 10 + el] == ',');
    assert(skip_ws_from(t, i + 11 + el) == i + 11 + el);
    assert(t[i + 30 + el] == dec_digits(e.time)[0]);
    assert(is_digit(dec_digits(e.time)[0]));
    assert(!crate::is_ws_char(t[i + 30 + el]));
    lemma_parse_key_ser(t, i + 11 + el, time_key());
    assert(parse_key_colon(t, i + 11 + el) == Some((time_key(), i + 30 + el)));
    lemma_parse_number_digits(t, i + 30 + el, e.time);
    assert(parse_number_at(t, i + 30 + el) == Some((e.time as int, i + 30 + el + dl)));
    assert(skip_ws_from(t, i + 30 + el + dl) == i + 30 + el + dl);
    assert(parse_close_brace(t, i + 30 + el + dl) == Some(i + 31 + el + dl));
    assert(name_key() != time_key()) by {
        assert(name_key().len() == 4 && time_key().len() == 16);
    }
    assert((EntryV { name: e.name, time: e.time as nat }) =~= e);
    assert(parse_entry_at(t, i) == Some((e, i + ser_entry(e).len())));
}

/// Written items, followed by the closing bracket, read back as those
/// entries in order.
proof fn lemma_parse_ser_items(t: Seq<char>, i: int, es: Seq<EntryV>)
    requires
        es.len() >= 1,
        0 <= i,
        i + ser_items(es).len() < t.len(),
        crate::util::match_at(t, ser_items(es), i),
        t[i + ser_items(es).len()] == ']',
        forall|k: int| 0 <= k < es.len() ==> #[trigger] es[k].time <= usize::MAX,
    ensures
        parse_items(t, i) == Some((es, i + ser_items(es).len())),
    decreases es.len(),
{
    if es.len() == 1 {
        assert(ser_items(es) == ser_entry(es[0]));
        lemma_parse_ser_entry(t, i, es[0]);
        assert(skip_ws_from(t, i) == i);
        let j = i + ser_entry(es[0]).len();
        assert(t[j] == ']');
        assert(skip_ws_from(t, j) == j);
        assert(seq![es[0]] =~= es);
    } else {
        let rest = es.drop_first();
        assert(ser_items(es) == ser_entry(es[0]) + (seq![','] + ser_items(rest))) by {
            assert(ser_items(es) == ser_entry(es[0]) + seq![','] + ser_items(rest));
            assert(ser_entry(es[0]) + seq![','] + ser_items(rest) =~= ser_entry(es[0]) + (
            seq![','] + ser_items(rest)));
        }
        lemma_match_at_split(t, i, ser_entry(es[0]), seq![','] + ser_items(rest));
        let j = i + ser_entry(es[0]).len();
        lemma_match_at_split(t, j, seq![','], ser_items(rest));
        lemma_parse_ser_entry(t, i, es[0]);
        assert(skip_ws_from(t, i) == i);
        assert(t[j] == seq![','][0]);
        assert(t[j] == ',');
        assert(skip_ws_from(t, j) == j);
        assert(forall|k: int| 0 <= k < rest.len() ==> #[trigger] rest[k].time <= usize::MAX) by {
            assert(forall|k: int| 0 <= k < rest.len() ==> rest[k] == #[trigger] es[k + 1]);
        }
        lemma_parse_ser_items(t, j + 1, rest);
        assert(seq![es[0]] + rest =~= es);
        assert(parse_items(t, i) == Some((es, i + ser_items(es).len())));
    }
}

/// Reading back a written store returns exactly the entries that were
/// written: the store's file format round-trips.
#[verifier::rlimit(60)]
pub proof fn lemma_store_round_trip(es: Seq<EntryV>)
    ensures
        (forall|k: int| 0 <= k < es.len() ==> #[trigger] es[k].time <= usize::MAX) ==> parse_text(
            spec_serialize(es),
        ) == Some(es),
{
    if forall|k: int| 0 <= k < es.len() ==> #[trigger] es[k].time <= usize::MAX {
        let t = spec_serialize(es);
        assert(t == seq!['['] + ser_items(es) + seq![']']);
        assert(t.len() == ser_items(es).len() + 2);
        assert(t[0] == '[');
        assert(skip_ws_from(t, 0) == 0);
        assert(t[t.len() - 1] == ']');
        if es.len() == 0 {
            assert(ser_items(es).len() == 0);
            assert(t[1] == ']');
            assert(skip_ws_from(t, 1) == 1);
            assert(skip_ws_from(t, 2) == 2);
            assert(parse_text(t) == Some(Seq::<EntryV>::empty()));
            assert(Seq::<EntryV>::empty() =~= es);
        } else {
            assert forall|j: int| 0 <= j < ser_items(es).len() implies t[1 + j]
                == #[trigger] ser_items(es)[j] by {
                assert(t[1 + j] == (seq!['['] + ser_items(es))[1 + j]);
            }
            assert(crate::util::match_at(t, ser_items(es), 1));
            assert(t[1 + ser_items(es).len() as int] == ']');
            lemma_parse_ser_items(t, 1, es);
            assert(ser_items(es)[0] == ser_entry(es[0])[0]) by {
                if es.len() > 1 {
                    assert(ser_items(es) == ser_entry(es[0]) + seq![','] + ser_items(
                        es.drop_first(),
                    ));
                }
            }
            assert(ser_entry(es[0])[0] == '{');
            assert(t[1] == '{');
            assert(skip_ws_from(t, 1) == 1);
            let k: int = 1 + ser_items(es).len() as int;
            assert(skip_ws_from(t, k + 1) == k + 1);
            assert(k + 1 == t.len());
            assert(parse_text(t) == Some(es));
        }
    }
}

/// A written store is read back by the store itself: it is never
/// blank, and its entries are the ones written.
pub proof fn lemma_serialized_store_entries(es: Seq<EntryV>)
    ensures
        (forall|k: int| 0 <= k < es.len() ==> #[trigger] es[k].time
            <= usize::MAX) ==> crate::store::store_entries(spec_serialize(es)) == Some(es),
{
    if forall|k: int| 0 <= k < es.len() ==> #[trigger] es[k].time <= usize::MAX {
        let t = spec_serialize(es);
        assert(t[0] == '[');
        assert(!crate::is_ws_char(t[0]));
        assert(!crate::is_all_ws(t));
        lemma_store_round_trip(es);
    }
}

} // verus!

