//! On-disk formats: the JSON config file and the per-field index
//! artifacts, as character streams.
//!
//! The config encoder emits exactly
//! `{"indexed_fields":{"<key>":"<schema>",...}}` with JSON `\u00XX`
//! escapes for quotes, backslashes and control characters; the decoder is
//! strict: it accepts an encoding, rebuilds the config, and re-encodes it
//! to confirm the input was canonical, so a successful decode re-encodes
//! to the very bytes read.

use vstd::prelude::*;

use crate::payload_index::{ConfigEntry, PayloadConfig};
use crate::types::{PayloadSchemaType, Value};

verus! {

/// Hexadecimal digit for a nibble.
pub open spec fn hex_digit(n: int) -> char {
    if n == 0 {
        '0'
    } else if n == 1 {
        '1'
    } else if n == 2 {
        '2'
    } else if n == 3 {
        '3'
    } else if n == 4 {
        '4'
    } else if n == 5 {
        '5'
    } else if n == 6 {
        '6'
    } else if n == 7 {
        '7'
    } else if n == 8 {
        '8'
    } else if n == 9 {
        '9'
    } else if n == 10 {
        'a'
    } else if n == 11 {
        'b'
    } else if n == 12 {
        'c'
    } else if n == 13 {
        'd'
    } else if n == 14 {
        'e'
    } else {
        'f'
    }
}

/// Runtime hexadecimal digit for a nibble.
pub fn hex_digit_exec(n: u32) -> (r: char)
    requires
        n < 16,
    ensures
        r == hex_digit(n as int),
{
    match n {
        0 => '0',
        1 => '1',
        2 => '2',
        3 => '3',
        4 => '4',
        5 => '5',
        6 => '6',
        7 => '7',
        8 => '8',
        9 => '9',
        10 => 'a',
        11 => 'b',
        12 => 'c',
        13 => 'd',
        14 => 'e',
        _ => 'f',
    }
}

/// Does the character pass through a JSON string unescaped?
pub open spec fn plain_char(c: char) -> bool {
    c != '"' && c != '\\' && c as int >= 0x20
}

/// JSON escape of one character: itself, or `\u00XX`.
pub open spec fn escape_char(c: char) -> Seq<char> {
    if plain_char(c) {
        seq![c]
    } else {
        seq!['\\', 'u', '0', '0', hex_digit(c as int / 16), hex_digit(c as int % 16)]
    }
}

/// JSON escape of a whole string.
pub open spec fn escape_str(s: Seq<char>) -> Seq<char>
    decreases s.len(),
{
    if s.len() == 0 {
        Seq::<char>::empty()
    } else {
        escape_char(s[0]) + escape_str(s.drop_first())
    }
}

/// The escape of a longer string extends by the escape of the new char.
pub proof fn lemma_escape_push(s: Seq<char>, c: char)
    ensures
        escape_str(s.push(c)) == escape_str(s) + escape_char(c),
    decreases s.len(),
{
    if s.len() == 0 {
        assert(s.push(c).drop_first() =~= Seq::<char>::empty());
        assert(s.push(c)[0] == c);
        assert(escape_str(s.push(c)) == escape_char(c) + escape_str(Seq::<char>::empty()));
        assert(escape_char(c) + Seq::<char>::empty() =~= escape_char(c));
        assert(escape_str(s) + escape_char(c) =~= escape_char(c));
    } else {
        assert(s.push(c).drop_first() =~= s.drop_first().push(c));
        lemma_escape_push(s.drop_first(), c);
        assert(escape_str(s.push(c)) =~= escape_str(s) + escape_char(c));
    }
}

/// Appends the JSON escape of `s` to `out`.
pub fn push_escaped(out: &mut Vec<char>, s: &String)
    ensures
        final(out)@ == old(out)@ + escape_str(s@),
{
    let ghost base = out@;
    let sref = s.as_str();
    let n = sref.unicode_len();
    let mut i: usize = 0;
    proof {
        assert(s@.take(0) =~= Seq::<char>::empty());
        assert(escape_str(s@.take(0)) =~= Seq::<char>::empty());
        assert(out@ =~= base + escape_str(s@.take(0)));
    }
    while i < n
        invariant
            n == s@.len(),
            sref@ == s@,
            i <= n,
            out@ == base + escape_str(s@.take(i as int)),
        decreases n - i,
    {
        let c = sref.get_char(i);
        let code = c as u32;
        if code >= 0x20 && c != '"' && c != '\\' {
            out.push(c);
        } else {
            out.push('\\');
            out.push('u');
            out.push('0');
            out.push('0');
            out.push(hex_digit_exec(code / 16));
            out.push(hex_digit_exec(code % 16));
        }
        proof {
            assert(s@.take(i as int + 1) =~= s@.take(i as int).push(s@[i as int]));
            lemma_escape_push(s@.take(i as int), s@[i as int]);
            assert(out@ =~= base + escape_str(s@.take(i as int + 1)));
        }
        i += 1;
    }
    proof {
        assert(s@.take(n as int) =~= s@);
    }
}

/// Appends a literal to `out`.
pub fn push_str(out: &mut Vec<char>, s: &str)
    ensures
        final(out)@ == old(out)@ + s@,
{
    let ghost base = out@;
    let n = s.unicode_len();
    let mut i: usize = 0;
    proof {
        assert(out@ =~= base + s@.take(0));
    }
    while i < n
        invariant
            n == s@.len(),
            i <= n,
            out@ == base + s@.take(i as int),
        decreases n - i,
    {
        out.push(s.get_char(i));
        proof {
            assert(out@ =~= base + s@.take(i as int + 1));
        }
        i += 1;
    }
    proof {
        assert(s@.take(n as int) =~= s@);
    }
}

/// The JSON word naming a schema type.
pub open spec fn schema_word(s: PayloadSchemaType) -> Seq<char> {
    match s {
        PayloadSchemaType::Integer => "integer"@,
        PayloadSchemaType::Float => "float"@,
        PayloadSchemaType::Keyword => "keyword"@,
        PayloadSchemaType::Geo => "geo"@,
    }
}

/// One encoded config entry: `"<key>":"<schema>"`.
pub open spec fn spec_encode_entry(e: ConfigEntry) -> Seq<char> {
    seq!['"'] + escape_str(e.key@) + seq!['"', ':', '"'] + schema_word(e.schema) + seq!['"']
}

/// Comma-separated encoded entries.
pub open spec fn spec_encode_entries(entries: Seq<ConfigEntry>) -> Seq<char>
    decreases entries.len(),
{
    if entries.len() == 0 {
        Seq::<char>::empty()
    } else if entries.len() == 1 {
        spec_encode_entry(entries[0])
    } else {
        spec_encode_entry(entries[0]) + seq![','] + spec_encode_entries(entries.drop_first())
    }
}

/// The whole config file.
pub open spec fn spec_encode_config(entries: Seq<ConfigEntry>) -> Seq<char> {
    "{\"indexed_fields\":{"@ + spec_encode_entries(entries) + "}}"@
}

/// Encodes the config as its JSON file content.
pub fn encode_config(config: &PayloadConfig) -> (r: Vec<char>)
    ensures
        r@ == spec_encode_config(config.indexed_fields@),
{
    let mut out: Vec<char> = Vec::new();
    push_str(&mut out, "{\"indexed_fields\":{");
    let ghost head = out@;
    let n = config.indexed_fields.len();
    let mut i: usize = 0;
    proof {
        assert(spec_encode_entries_take(config.indexed_fields@, 0) =~= Seq::<char>::empty());
        assert(out@ =~= head + spec_encode_entries_take(config.indexed_fields@, 0));
    }
    while i < n
        invariant
            n == config.indexed_fields@.len(),
            i <= n,
            out@ == head + spec_encode_entries_take(config.indexed_fields@, i as int),
        decreases n - i,
    {
        if i > 0 {
            push_str(&mut out, ",");
        }
        push_str(&mut out, "\"");
        push_escaped(&mut out, &config.indexed_fields[i].key);
        push_str(&mut out, "\":\"");
        match config.indexed_fields[i].schema {
            PayloadSchemaType::Integer => push_str(&mut out, "integer"),
            PayloadSchemaType::Float => push_str(&mut out, "float"),
            PayloadSchemaType::Keyword => push_str(&mut out, "keyword"),
            PayloadSchemaType::Geo => push_str(&mut out, "geo"),
        }
        push_str(&mut out, "\"");
        proof {
            reveal_strlit(",");
            reveal_strlit("\"");
            reveal_strlit("\":\"");
            assert(","@ =~= seq![',']);
            assert("\""@ =~= seq!['"']);
            assert("\":\""@ =~= seq!['"', ':', '"']);
            lemma_encode_entries_take_step(config.indexed_fields@, i as int);
            assert(out@ =~= head + spec_encode_entries_take(
                config.indexed_fields@,
                i as int + 1,
            ));
        }
        i += 1;
    }
    push_str(&mut out, "}}");
    proof {
        lemma_encode_entries_take_all(config.indexed_fields@);
        assert(out@ =~= spec_encode_config(config.indexed_fields@));
    }
    out
}

/// Encoded prefix of the first `k` entries, with their separating commas.
pub open spec fn spec_encode_entries_take(entries: Seq<ConfigEntry>, k: int) -> Seq<char>
    decreases k,
{
    if k <= 0 {
        Seq::<char>::empty()
    } else if k == 1 {
        spec_encode_entry(entries[0])
    } else {
        spec_encode_entries_take(entries, k - 1) + seq![','] + spec_encode_entry(entries[k - 1])
    }
}

/// Taking one more entry appends a comma (after the first) and the entry.
pub proof fn lemma_encode_entries_take_step(entries: Seq<ConfigEntry>, i: int)
    requires
        0 <= i < entries.len(),
    ensures
        spec_encode_entries_take(entries, i + 1) == if i == 0 {
            spec_encode_entry(entries[0])
        } else {
            spec_encode_entries_take(entries, i) + seq![','] + spec_encode_entry(entries[i])
        },
{
}

/// The prefix of all entries is the full encoding.
pub proof fn lemma_encode_entries_take_all(entries: Seq<ConfigEntry>)
    ensures
        spec_encode_entries_take(entries, entries.len() as int) == spec_encode_entries(entries),
    decreases entries.len(),
{
    let n = entries.len() as int;
    if n <= 1 {
    } else {
        lemma_encode_entries_take_all(entries.drop_first());
        lemma_take_shift(entries, n - 1);
        assert(spec_encode_entries(entries) =~= spec_encode_entry(entries[0]) + seq![',']
            + spec_encode_entries(entries.drop_first()));
        assert(spec_encode_entries_take(entries, n) =~= spec_encode_entries_take(entries, n - 1)
            + seq![','] + spec_encode_entry(entries[n - 1]));
    }
}

/// Shifted prefix encodings agree: the prefix of `k` entries of the tail
/// together with the head's entry and a comma is the prefix of `k + 1`.
proof fn lemma_take_shift(entries: Seq<ConfigEntry>, k: int)
    requires
        1 <= k <= entries.len() - 1,
    ensures
        spec_encode_entries_take(entries, k + 1) == spec_encode_entry(entries[0]) + seq![',']
            + spec_encode_entries_take(entries.drop_first(), k),
    decreases k,
{
    if k == 1 {
        assert(spec_encode_entries_take(entries, 1) == spec_encode_entry(entries[0]));
        assert(spec_encode_entries_take(entries, 2) == spec_encode_entries_take(entries, 1)
            + seq![','] + spec_encode_entry(entries[1]));
        assert(entries.drop_first()[0] == entries[1]);
        assert(spec_encode_entries_take(entries.drop_first(), 1) == spec_encode_entry(
            entries[1],
        ));
        assert(spec_encode_entries_take(entries, 2) =~= spec_encode_entry(entries[0]) + seq![',']
            + spec_encode_entries_take(entries.drop_first(), 1));
    } else {
        lemma_take_shift(entries, k - 1);
        assert(entries.drop_first()[k - 1] == entries[k]);
        assert(spec_encode_entries_take(entries, k + 1) =~= spec_encode_entry(entries[0])
            + seq![','] + spec_encode_entries_take(entries.drop_first(), k));
    }
}

/// Splitting a suffix: when what follows `pos` is `a + b`, the next
/// `a.len()` characters are `a` and what follows them is `b`.
proof fn lemma_skip_concat(input: Seq<char>, pos: int, a: Seq<char>, b: Seq<char>)
    requires
        0 <= pos <= input.len(),
        input.skip(pos) == a + b,
    ensures
        pos + a.len() <= input.len(),
        input.subrange(pos, pos + a.len()) == a,
        input.skip(pos + a.len()) == b,
{
    assert(input.skip(pos).len() == input.len() - pos);
    assert(input.subrange(pos, pos + a.len()) =~= a) by {
        assert forall|i: int| 0 <= i < a.len() implies input.subrange(pos, pos + a.len())[i]
            == a[i] by {
            assert(input.skip(pos)[i] == (a + b)[i]);
        }
    }
    assert(input.skip(pos + a.len()).len() == b.len());
    assert(input.skip(pos + a.len()) =~= b) by {
        assert forall|i: int| 0 <= i < b.len() implies input.skip(pos + a.len())[i] == b[i] by {
            assert(input.skip(pos + a.len())[i] == input[pos + a.len() + i]);
            assert(input.skip(pos)[a.len() + i] == input[pos + a.len() + i]);
            assert((a + b)[a.len() + i] == b[i]);
        }
    }
}

/// Relies on std's `String::push`: appends exactly the one character.
/// vstd gives `push` no specification.
#[verifier::external_body]
fn push_char(s: &mut String, c: char)
    ensures
        final(s)@ == old(s)@.push(c),
{
    s.push(c);
}

/// Are two character vectors equal in content?
pub fn chars_eq(a: &Vec<char>, b: &Vec<char>) -> (r: bool)
    ensures
        r == (a@ == b@),
{
    if a.len() != b.len() {
        proof {
            assert(a@.len() != b@.len());
        }
        return false;
    }
    let mut i: usize = 0;
    while i < a.len()
        invariant
            a@.len() == b@.len(),
            i <= a@.len(),
            forall|j: int| 0 <= j < i ==> a@[j] == b@[j],
        decreases a@.len() - i,
    {
        if a[i] != b[i] {
            return false;
        }
        i += 1;
    }
    proof {
        assert(a@ =~= b@);
    }
    true
}

/// Consumes the literal at `pos`, or fails: succeeds exactly when the
/// literal stands at `pos`.
#[verifier::loop_isolation(false)]
fn match_lit(input: &Vec<char>, pos: usize, lit: &str) -> (r: Option<usize>)
    ensures
        match r {
            Some(p) => p == pos + lit@.len() && p <= input@.len() && input@.subrange(
                pos as int,
                p as int,
            ) == lit@,
            None => !(pos + lit@.len() <= input@.len() && input@.subrange(
                pos as int,
                pos + lit@.len(),
            ) == lit@),
        },
{
    let n = lit.unicode_len();
    if n > input.len() || pos > input.len() - n {
        return None;
    }
    let mut i: usize = 0;
    while i < n
        invariant
            n == lit@.len(),
            pos + n <= input@.len(),
            i <= n,
            forall|t: int| 0 <= t < i ==> input@[pos + t] == lit@[t],
        decreases n - i,
    {
        if input[pos + i] != lit.get_char(i) {
            proof {
                assert(input@.subrange(pos as int, pos + lit@.len())[i as int]
                    == input@[pos + i]);
            }
            return None;
        }
        i += 1;
    }
    proof {
        assert(input@.subrange(pos as int, pos + lit@.len()) =~= lit@);
    }
    Some(pos + n)
}

/// Hexadecimal value of a digit character, if it is one: inverts
/// [`hex_digit`].
fn hex_val(c: char) -> (r: Option<u8>)
    ensures
        r matches Some(v) ==> v < 16,
        forall|x: int| 0 <= x < 16 && c == hex_digit(x) ==> r == Some(x as u8),
{
    match c {
        '0' => Some(0),
        '1' => Some(1),
        '2' => Some(2),
        '3' => Some(3),
        '4' => Some(4),
        '5' => Some(5),
        '6' => Some(6),
        '7' => Some(7),
        '8' => Some(8),
        '9' => Some(9),
        'a' => Some(10),
        'b' => Some(11),
        'c' => Some(12),
        'd' => Some(13),
        'e' => Some(14),
        'f' => Some(15),
        _ => None,
    }
}

/// Parses one JSON string body starting at `pos` (after the opening
/// quote), up to its closing quote. Only the escapes the encoder emits
/// (`\u00XX`) are accepted. Complete on canonical input: when the
/// characters at `pos` are an escaped string with its closing quote, the
/// parse succeeds and returns exactly that string.
#[verifier::loop_isolation(false)]
fn parse_string(input: &Vec<char>, pos: usize) -> (r: Option<(String, usize)>)
    requires
        pos <= input@.len(),
    ensures
        r matches Some((_, p)) ==> pos <= p <= input@.len(),
        forall|k: Seq<char>, rest: Seq<char>|
            input@.skip(pos as int) == escape_str(k) + seq!['"'] + rest ==> match r {
                Some((s2, p2)) => s2@ == k && input@.skip(p2 as int) == rest,
                None => false,
            },
    decreases input@.len(),
{
    let ghost canonical = exists|k: Seq<char>, rest: Seq<char>|
        input@.skip(pos as int) == escape_str(k) + seq!['"'] + rest;
    let ghost (gk, grest): (Seq<char>, Seq<char>) = if canonical {
        choose|k: Seq<char>, rest: Seq<char>|
            input@.skip(pos as int) == escape_str(k) + seq!['"'] + rest
    } else {
        (Seq::<char>::empty(), Seq::<char>::empty())
    };
    let ghost mut m: int = 0;
    let mut s = String::new();
    let mut i: usize = pos;
    proof {
        if canonical {
            assert(gk.skip(0) =~= gk);
            assert(s@ =~= gk.take(0));
        }
    }
    while i < input.len()
        invariant
            pos <= i <= input@.len(),
            canonical ==> {
                &&& 0 <= m <= gk.len()
                &&& s@ == gk.take(m)
                &&& input@.skip(i as int) == escape_str(gk.skip(m)) + seq!['"'] + grest
            },
        decreases input@.len() - i,
    {
        let c = input[i];
        proof {
            if canonical {
                assert(input@.skip(i as int)[0] == input@[i as int]);
                if m == gk.len() {
                    assert(gk.skip(m) =~= Seq::<char>::empty());
                    assert(escape_str(gk.skip(m)).len() == 0);
                    assert((escape_str(gk.skip(m)) + seq!['"'] + grest)[0] == '"');
                } else {
                    assert(gk.skip(m)[0] == gk[m]);
                    assert(gk.skip(m).drop_first() =~= gk.skip(m + 1));
                    assert(escape_str(gk.skip(m)) == escape_char(gk[m]) + escape_str(
                        gk.skip(m + 1),
                    ));
                    lemma_escape_char_head(gk[m]);
                    assert(input@.skip(i as int) =~= escape_char(gk[m]) + (escape_str(
                        gk.skip(m + 1),
                    ) + seq!['"'] + grest));
                    lemma_skip_concat(
                        input@,
                        i as int,
                        escape_char(gk[m]),
                        escape_str(gk.skip(m + 1)) + seq!['"'] + grest,
                    );
                    assert(c == escape_char(gk[m])[0]);
                }
            }
        }
        if c == '"' {
            proof {
                if canonical {
                    if m < gk.len() {
                        assert(escape_char(gk[m])[0] != '"');
                        assert(false);
                    }
                    assert(gk.take(m) =~= gk);
                    lemma_skip_concat(input@, i as int, seq!['"'], grest);
                }
            }
            let r = Some((s, i + 1));
            proof {
                assert forall|k: Seq<char>, rest: Seq<char>|
                    input@.skip(pos as int) == escape_str(k) + seq!['"'] + rest implies match r {
                    Some((s2, p2)) => s2@ == k && input@.skip(p2 as int) == rest,
                    None => false,
                } by {
                    lemma_escape_terminated_injective(k, rest, gk, grest);
                }
            }
            return r;
        } else if c == '\\' {
            proof {
                if canonical {
                    if m == gk.len() {
                        assert(false);
                    }
                    assert(!plain_char(gk[m])) by {
                        if plain_char(gk[m]) {
                            assert(escape_char(gk[m])[0] == gk[m]);
                        }
                    }
                    lemma_unplain_bound(gk[m]);
                    assert(escape_char(gk[m]) == seq![
                        '\\',
                        'u',
                        '0',
                        '0',
                        hex_digit(gk[m] as int / 16),
                        hex_digit(gk[m] as int % 16),
                    ]);
                    assert(input@.subrange(i as int, i + 6) == escape_char(gk[m]));
                    assert forall|t: int| 0 <= t < 6 implies input@[i + t] == escape_char(
                        gk[m],
                    )[t] by {
                        assert(input@.subrange(i as int, i + 6)[t] == input@[i + t]);
                    }
                }
            }
            if input.len() - i < 6 {
                proof {
                    if canonical {
                        assert(false);
                    }
                }
                return None;
            }
            if input[i + 1] != 'u' || input[i + 2] != '0' || input[i + 3] != '0' {
                proof {
                    if canonical {
                        assert(false);
                    }
                }
                return None;
            }
            let hi = match hex_val(input[i + 4]) {
                Some(v) => v,
                None => {
                    proof {
                        if canonical {
                            assert(false);
                        }
                    }
                    return None;
                },
            };
            let lo = match hex_val(input[i + 5]) {
                Some(v) => v,
                None => {
                    proof {
                        if canonical {
                            assert(false);
                        }
                    }
                    return None;
                },
            };
            let code: u8 = hi * 16 + lo;
            proof {
                if canonical {
                    assert(hi == (gk[m] as int / 16) as u8);
                    assert(lo == (gk[m] as int % 16) as u8);
                    vstd::arithmetic::div_mod::lemma_fundamental_div_mod(gk[m] as int, 16);
                    assert(code as int == gk[m] as int);
                    assert(code as char == gk[m]);
                    assert(gk.take(m + 1) =~= gk.take(m).push(gk[m]));
                }
            }
            push_char(&mut s, code as char);
            proof {
                if canonical {
                    m = m + 1;
                }
            }
            i += 6;
        } else {
            proof {
                if canonical {
                    if m == gk.len() {
                        assert(false);
                    }
                    assert(plain_char(gk[m])) by {
                        if !plain_char(gk[m]) {
                            assert(escape_char(gk[m])[0] == '\\');
                        }
                    }
                    assert(c == gk[m]);
                    assert(gk.take(m + 1) =~= gk.take(m).push(gk[m]));
                }
            }
            push_char(&mut s, c);
            proof {
                if canonical {
                    m = m + 1;
                }
            }
            i += 1;
        }
    }
    proof {
        if canonical {
            assert(input@.skip(i as int).len() == 0);
            assert((escape_str(gk.skip(m)) + seq!['"'] + grest).len() >= 1);
            assert(false);
        }
    }
    None
}

/// Are the entry keys pairwise distinct?
fn keys_unique(entries: &Vec<ConfigEntry>) -> (r: bool)
    ensures
        r == forall|i: int, j: int|
            0 <= i < j < entries@.len() ==> entries@[i].key@ != entries@[j].key@,
{
    let n = entries.len();
    let mut i: usize = 0;
    while i < n
        invariant
            n == entries@.len(),
            i <= n,
            forall|a: int, b: int| 0 <= a < b < i ==> entries@[a].key@ != entries@[b].key@,
        decreases n - i,
    {
        let mut j: usize = 0;
        while j < i
            invariant
                i < n == entries@.len(),
                j <= i,
                forall|a: int, b: int| 0 <= a < b < i ==> entries@[a].key@ != entries@[b].key@,
                forall|b: int| 0 <= b < j ==> entries@[b].key@ != entries@[i as int].key@,
            decreases i - j,
        {
            if entries[j].key == entries[i].key {
                proof {
                    assert(entries@[j as int].key@ == entries@[i as int].key@);
                }
                return false;
            }
            j += 1;
        }
        i += 1;
    }
    true
}

/// Entries with the same keys and schemas encode identically.
proof fn lemma_encode_view_determined(e1: Seq<ConfigEntry>, e2: Seq<ConfigEntry>)
    requires
        e1.len() == e2.len(),
        forall|i: int|
            0 <= i < e1.len() ==> (#[trigger] e1[i]).key@ == e2[i].key@ && e1[i].schema
                == e2[i].schema,
    ensures
        spec_encode_entries(e1) == spec_encode_entries(e2),
    decreases e1.len(),
{
    if e1.len() == 0 {
    } else {
        assert(spec_encode_entry(e1[0]) == spec_encode_entry(e2[0]));
        assert forall|i: int| 0 <= i < e1.drop_first().len() implies (
        #[trigger] e1.drop_first()[i]).key@ == e2.drop_first()[i].key@
            && e1.drop_first()[i].schema == e2.drop_first()[i].schema by {
            assert(e1.drop_first()[i] == e1[i + 1]);
            assert(e2.drop_first()[i] == e2[i + 1]);
        }
        lemma_encode_view_determined(e1.drop_first(), e2.drop_first());
    }
}

/// One schema word followed by its closing quote, as the parser matches it.
proof fn lemma_schema_lit_views()
    ensures
        "integer\""@ == "integer"@ + seq!['"'],
        "float\""@ == "float"@ + seq!['"'],
        "keyword\""@ == "keyword"@ + seq!['"'],
        "geo\""@ == "geo"@ + seq!['"'],
{
    reveal_strlit("integer\"");
    reveal_strlit("float\"");
    reveal_strlit("keyword\"");
    reveal_strlit("geo\"");
    reveal_strlit("integer");
    reveal_strlit("float");
    reveal_strlit("keyword");
    reveal_strlit("geo");
    assert("integer\""@ =~= "integer"@ + seq!['"']);
    assert("float\""@ =~= "float"@ + seq!['"']);
    assert("keyword\""@ =~= "keyword"@ + seq!['"']);
    assert("geo\""@ =~= "geo"@ + seq!['"']);
}

/// Parses `"key":"schema"` entries separated by commas, stopping before
/// the closing brace. Complete on canonical input: when the characters at
/// `pos` are an encoded non-empty entry list followed by the two closing
/// braces, every entry is parsed with its exact key and schema.
#[verifier::rlimit(100)]
#[verifier::spinoff_prover]
fn parse_entries(input: &Vec<char>, pos: usize, entries: &mut Vec<ConfigEntry>) -> (r: Option<
    usize,
>)
    requires
        pos <= input@.len(),
    ensures
        r matches Some(p) ==> pos <= p <= input@.len(),
        forall|es: Seq<ConfigEntry>|
            es.len() > 0 && input@.skip(pos as int) == spec_encode_entries(es) + seq!['}']
                + seq!['}'] ==> match r {
                Some(p) => {
                    &&& input@.skip(p as int) == seq!['}'] + seq!['}']
                    &&& final(entries)@.len() == old(entries)@.len() + es.len()
                    &&& final(entries)@.subrange(0, old(entries)@.len() as int) == old(entries)@
                    &&& forall|t: int|
                        0 <= t < es.len() ==> (#[trigger] final(entries)@[old(entries)@.len()
                            + t]).key@ == es[t].key@ && final(entries)@[old(entries)@.len()
                            + t].schema == es[t].schema
                },
                None => false,
            },
    decreases input@.len() - pos,
{
    let ghost canonical = exists|es: Seq<ConfigEntry>|
        es.len() > 0 && input@.skip(pos as int) == spec_encode_entries(es) + seq!['}']
            + seq!['}'];
    let ghost ges: Seq<ConfigEntry> = if canonical {
        choose|es: Seq<ConfigEntry>|
            es.len() > 0 && input@.skip(pos as int) == spec_encode_entries(es) + seq!['}']
                + seq!['}']
    } else {
        Seq::<ConfigEntry>::empty()
    };
    let ghost k0 = if canonical {
        ges[0].key@
    } else {
        Seq::<char>::empty()
    };
    let ghost tail0: Seq<char> = entries_tail(ges, seq!['}']);
    let ghost after_key: Seq<char> = seq![':', '"'] + schema_word(
        if canonical {
            ges[0].schema
        } else {
            crate::types::PayloadSchemaType::Integer
        },
    ) + seq!['"'] + tail0;
    proof {
        if canonical {
            lemma_entries_decompose(ges, seq!['}']);
            assert(input@.skip(pos as int) == seq!['"'] + (escape_str(k0) + seq!['"']
                + after_key));
            lemma_skip_concat(
                input@,
                pos as int,
                seq!['"'],
                escape_str(k0) + seq!['"'] + after_key,
            );
            reveal_strlit("\"");
            assert("\""@ =~= seq!['"']);
        }
    }
    let p1 = match match_lit(input, pos, "\"") {
        Some(p) => p,
        None => {
            proof {
                if canonical {
                    assert(false);
                }
            }
            return None;
        },
    };
    proof {
        if canonical {
            assert(p1 == pos + 1);
            assert(input@.skip(p1 as int) == escape_str(k0) + seq!['"'] + after_key);
        }
    }
    let (key, p2) = match parse_string(input, p1) {
        Some(kp) => kp,
        None => {
            proof {
                if canonical {
                    assert(false);
                }
            }
            return None;
        },
    };
    proof {
        if canonical {
            assert(key@ == k0 && input@.skip(p2 as int) == after_key);
            assert(after_key =~= seq![':', '"'] + (schema_word(ges[0].schema) + seq!['"']
                + tail0));
            lemma_skip_concat(
                input@,
                p2 as int,
                seq![':', '"'],
                schema_word(ges[0].schema) + seq!['"'] + tail0,
            );
            reveal_strlit(":\"");
            assert(":\""@ =~= seq![':', '"']);
        }
    }
    let p3 = match match_lit(input, p2, ":\"") {
        Some(p) => p,
        None => {
            proof {
                if canonical {
                    assert(false);
                }
            }
            return None;
        },
    };
    proof {
        if canonical {
            lemma_schema_word_heads();
            lemma_schema_lit_views();
            assert(input@.skip(p3 as int) == schema_word(ges[0].schema) + seq!['"'] + tail0);
            assert(input@.skip(p3 as int) =~= (schema_word(ges[0].schema) + seq!['"']) + tail0);
            lemma_skip_concat(
                input@,
                p3 as int,
                schema_word(ges[0].schema) + seq!['"'],
                tail0,
            );
            assert(input@[p3 as int] == schema_word(ges[0].schema)[0]) by {
                assert(input@.skip(p3 as int)[0] == input@[p3 as int]);
            }
        }
    }
    let mut p4: usize = 0;
    let schema = if let Some(p) = match_lit(input, p3, "integer\"") {
        p4 = p;
        proof {
            if canonical {
                lemma_schema_word_heads();
                lemma_schema_lit_views();
                assert(input@.subrange(p3 as int, p3 + 8)[0] == input@[p3 as int]);
                assert(("integer"@ + seq!['"'])[0] == "integer"@[0]);
                assert(ges[0].schema == PayloadSchemaType::Integer);
            }
        }
        PayloadSchemaType::Integer
    } else if let Some(p) = match_lit(input, p3, "float\"") {
        p4 = p;
        proof {
            if canonical {
                lemma_schema_word_heads();
                lemma_schema_lit_views();
                assert(input@.subrange(p3 as int, p3 + 6)[0] == input@[p3 as int]);
                assert(("float"@ + seq!['"'])[0] == "float"@[0]);
                assert(ges[0].schema == PayloadSchemaType::Float);
            }
        }
        PayloadSchemaType::Float
    } else if let Some(p) = match_lit(input, p3, "keyword\"") {
        p4 = p;
        proof {
            if canonical {
                lemma_schema_word_heads();
                lemma_schema_lit_views();
                assert(input@.subrange(p3 as int, p3 + 8)[0] == input@[p3 as int]);
                assert(("keyword"@ + seq!['"'])[0] == "keyword"@[0]);
                assert(ges[0].schema == PayloadSchemaType::Keyword);
            }
        }
        PayloadSchemaType::Keyword
    } else if let Some(p) = match_lit(input, p3, "geo\"") {
        p4 = p;
        proof {
            if canonical {
                lemma_schema_word_heads();
                lemma_schema_lit_views();
                assert(input@.subrange(p3 as int, p3 + 4)[0] == input@[p3 as int]);
                assert(("geo"@ + seq!['"'])[0] == "geo"@[0]);
                assert(ges[0].schema == PayloadSchemaType::Geo);
            }
        }
        PayloadSchemaType::Geo
    } else {
        proof {
            if canonical {
                lemma_schema_word_heads();
                lemma_schema_lit_views();
                match ges[0].schema {
                    PayloadSchemaType::Integer => {
                        assert(input@.subrange(p3 as int, p3 + 8) =~= "integer\""@);
                    },
                    PayloadSchemaType::Float => {
                        assert(input@.subrange(p3 as int, p3 + 6) =~= "float\""@);
                    },
                    PayloadSchemaType::Keyword => {
                        assert(input@.subrange(p3 as int, p3 + 8) =~= "keyword\""@);
                    },
                    PayloadSchemaType::Geo => {
                        assert(input@.subrange(p3 as int, p3 + 4) =~= "geo\""@);
                    },
                }
                assert(false);
            }
        }
        return None;
    };
    proof {
        if canonical {
            lemma_schema_lit_views();
            assert(schema == ges[0].schema);
            assert(p4 as int == p3 + schema_word(ges[0].schema).len() + 1);
            assert(input@.skip(p4 as int) == tail0);
        }
    }
    let ghost pre = entries@;
    entries.push(ConfigEntry { key, schema });
    if p4 < input.len() && input[p4] == ',' {
        proof {
            if canonical {
                assert(input@.skip(p4 as int)[0] == input@[p4 as int]);
                if ges.len() == 1 {
                    assert(tail0 == seq!['}'] + seq!['}']);
                    assert(false);
                }
                assert(tail0 == seq![','] + spec_encode_entries(ges.drop_first()) + seq!['}']
                    + seq!['}']);
                assert(tail0 =~= seq![','] + (spec_encode_entries(ges.drop_first())
                    + seq!['}'] + seq!['}']));
                lemma_skip_concat(
                    input@,
                    p4 as int,
                    seq![','],
                    spec_encode_entries(ges.drop_first()) + seq!['}'] + seq!['}'],
                );
            }
        }
        let rec = parse_entries(input, p4 + 1, entries);
        let r = rec;
        proof {
            assert forall|es: Seq<ConfigEntry>|
                es.len() > 0 && input@.skip(pos as int) == spec_encode_entries(es) + seq!['}']
                    + seq!['}'] implies match r {
                Some(p) => {
                    &&& input@.skip(p as int) == seq!['}'] + seq!['}']
                    &&& entries@.len() == old(entries)@.len() + es.len()
                    &&& entries@.subrange(0, old(entries)@.len() as int) == old(entries)@
                    &&& forall|t: int|
                        0 <= t < es.len() ==> (#[trigger] entries@[old(entries)@.len()
                            + t]).key@ == es[t].key@ && entries@[old(entries)@.len() + t].schema
                            == es[t].schema
                },
                None => false,
            } by {
                lemma_encode_entries_injective(es, seq!['}'], ges, seq!['}']);
                let ghost ges2 = ges.drop_first();
                assert(ges2.len() > 0 && input@.skip(p4 as int + 1) == spec_encode_entries(
                    ges2,
                ) + seq!['}'] + seq!['}']);
                match r {
                    Some(p) => {
                        let pl = pre.len() as int;
                        let mid = pre.push(ConfigEntry { key: entries@[pl].key, schema });
                        assert(entries@.subrange(0, pl + 1) == mid || entries@.subrange(
                            0,
                            pl + 1,
                        ) != mid);
                        assert forall|t: int| 0 <= t < pl implies entries@[t] == pre[t] by {
                            assert(entries@.subrange(0, pl + 1)[t] == entries@[t]);
                        }
                        assert(entries@.subrange(0, pl) =~= pre) by {
                            assert forall|t: int| 0 <= t < pl implies entries@.subrange(
                                0,
                                pl,
                            )[t] == pre[t] by {
                                assert(entries@.subrange(0, pl)[t] == entries@[t]);
                            }
                        }
                        assert(entries@[pl] == entries@.subrange(0, pl + 1)[pl]);
                        assert forall|t: int|
                            0 <= t < es.len() implies (#[trigger] entries@[pl + t]).key@
                            == es[t].key@ && entries@[pl + t].schema == es[t].schema by {
                            if t > 0 {
                                assert(entries@[pl + 1 + (t - 1)].key@ == ges2[t - 1].key@
                                    && entries@[pl + 1 + (t - 1)].schema == ges2[t - 1].schema);
                                assert(ges.drop_first()[t - 1] == ges[t]);
                            }
                        }
                    },
                    None => {},
                }
            }
        }
        r
    } else {
        proof {
            if canonical {
                if ges.len() > 1 {
                    assert(tail0 == seq![','] + spec_encode_entries(ges.drop_first())
                        + seq!['}'] + seq!['}']);
                    assert(input@.skip(p4 as int).len() >= 1);
                    assert(p4 < input@.len());
                    assert(input@.skip(p4 as int)[0] == input@[p4 as int]);
                    assert(input@[p4 as int] == ',');
                    assert(false);
                }
                assert(tail0 == seq!['}'] + seq!['}']);
            }
        }
        let r = Some(p4);
        proof {
            assert forall|es: Seq<ConfigEntry>|
                es.len() > 0 && input@.skip(pos as int) == spec_encode_entries(es) + seq!['}']
                    + seq!['}'] implies match r {
                Some(p) => {
                    &&& input@.skip(p as int) == seq!['}'] + seq!['}']
                    &&& entries@.len() == old(entries)@.len() + es.len()
                    &&& entries@.subrange(0, old(entries)@.len() as int) == old(entries)@
                    &&& forall|t: int|
                        0 <= t < es.len() ==> (#[trigger] entries@[old(entries)@.len()
                            + t]).key@ == es[t].key@ && entries@[old(entries)@.len() + t].schema
                            == es[t].schema
                },
                None => false,
            } by {
                lemma_encode_entries_injective(es, seq!['}'], ges, seq!['}']);
                assert(entries@.subrange(0, pre.len() as int) =~= pre);
            }
        }
        r
    }
}

/// Decodes a config file. Strict and complete: only the canonical
/// encoding is accepted (enforced by re-encoding), and every canonical
/// encoding of a config with distinct keys is accepted.
pub fn decode_config(input: &Vec<char>) -> (r: Option<PayloadConfig>)
    ensures
        r matches Some(c) ==> c.wf() && spec_encode_config(c.indexed_fields@) == input@,
        (exists|es: Seq<ConfigEntry>|
            (forall|i: int, j: int| 0 <= i < j < es.len() ==> es[i].key@ != es[j].key@)
                && input@ == spec_encode_config(es)) ==> r is Some,
{
    let ghost canonical = exists|es: Seq<ConfigEntry>|
        (forall|i: int, j: int| 0 <= i < j < es.len() ==> es[i].key@ != es[j].key@) && input@
            == spec_encode_config(es);
    let ghost ges: Seq<ConfigEntry> = if canonical {
        choose|es: Seq<ConfigEntry>|
            (forall|i: int, j: int| 0 <= i < j < es.len() ==> es[i].key@ != es[j].key@)
                && input@ == spec_encode_config(es)
    } else {
        Seq::<ConfigEntry>::empty()
    };
    proof {
        if canonical {
            reveal_strlit("{\"indexed_fields\":{");
            reveal_strlit("}}");
            assert("}}"@ =~= seq!['}'] + seq!['}']);
            assert(input@ =~= input@.skip(0));
            assert(input@.skip(0) =~= "{\"indexed_fields\":{"@ + (spec_encode_entries(ges)
                + seq!['}'] + seq!['}']));
            lemma_skip_concat(
                input@,
                0,
                "{\"indexed_fields\":{"@,
                spec_encode_entries(ges) + seq!['}'] + seq!['}'],
            );
        }
    }
    let mut entries: Vec<ConfigEntry> = Vec::new();
    let mut pos: usize = match match_lit(input, 0, "{\"indexed_fields\":{") {
        Some(p) => p,
        None => {
            proof {
                if canonical {
                    assert(false);
                }
            }
            return None;
        },
    };
    proof {
        if canonical {
            assert(input@.skip(pos as int) == spec_encode_entries(ges) + seq!['}'] + seq!['}']);
            if ges.len() > 0 {
                lemma_entries_head(ges);
                assert(input@.skip(pos as int)[0] == spec_encode_entries(ges)[0]);
            } else {
                assert(spec_encode_entries(ges).len() == 0);
                assert(input@.skip(pos as int)[0] == '}');
            }
            assert(input@.skip(pos as int)[0] == input@[pos as int]);
            assert(input@.skip(pos as int).len() >= 2);
        }
    }
    if pos < input.len() && input[pos] == '}' {
        proof {
            if canonical {
                assert(ges.len() == 0);
            }
        }
    } else {
        proof {
            if canonical {
                assert(ges.len() > 0);
            }
        }
        let ghost pos_before = pos as int;
        pos = match parse_entries(input, pos, &mut entries) {
            Some(p) => p,
            None => {
                proof {
                    if canonical {
                        assert(false);
                    }
                }
                return None;
            },
        };
        proof {
            if canonical {
                assert(input@.skip(pos as int) == seq!['}'] + seq!['}']);
                assert(entries@.len() == ges.len());
                assert forall|t: int|
                    0 <= t < ges.len() implies (#[trigger] entries@[t]).key@ == ges[t].key@
                        && entries@[t].schema == ges[t].schema by {
                    assert(entries@[0 + t].key@ == ges[t].key@ && entries@[0 + t].schema
                        == ges[t].schema);
                }
            }
        }
    }
    proof {
        if canonical {
            assert(input@.skip(pos as int) == seq!['}'] + seq!['}']) by {
                if ges.len() == 0 {
                    assert(spec_encode_entries(ges).len() == 0);
                    assert(input@.skip(pos as int) =~= seq!['}'] + seq!['}']);
                }
            }
            reveal_strlit("}}");
            assert("}}"@ =~= seq!['}'] + seq!['}']);
            lemma_skip_concat(input@, pos as int, seq!['}'] + seq!['}'], Seq::<char>::empty());
            assert(input@.subrange(pos as int, pos + 2) =~= "}}"@);
            assert(pos + 2 == input@.len()) by {
                assert(input@.skip(pos as int).len() == 2);
            }
        }
    }
    match match_lit(input, pos, "}}") {
        Some(p) => {
            if p != input.len() {
                proof {
                    if canonical {
                        assert(false);
                    }
                }
                return None;
            }
        },
        None => {
            proof {
                if canonical {
                    assert(false);
                }
            }
            return None;
        },
    }
    if !keys_unique(&entries) {
        proof {
            if canonical {
                assert(false) by {
                    assert forall|i: int, j: int|
                        0 <= i < j < entries@.len() implies entries@[i].key@
                        != entries@[j].key@ by {
                        assert(entries@[i].key@ == ges[i].key@);
                        assert(entries@[j].key@ == ges[j].key@);
                    }
                }
            }
        }
        return None;
    }
    let candidate = PayloadConfig { indexed_fields: entries };
    let re = encode_config(&candidate);
    proof {
        if canonical {
            lemma_encode_view_determined(candidate.indexed_fields@, ges);
            assert(re@ == input@);
        }
    }
    if crate::codec::chars_eq(&re, input) {
        Some(candidate)
    } else {
        None
    }
}

/// Hexadecimal digits of a 64-bit value from nibble `k` on (most
/// significant first).
pub open spec fn hex64_digits(x: u64, k: int) -> Seq<char>
    decreases 16 - k,
{
    if k < 0 || k >= 16 {
        Seq::<char>::empty()
    } else {
        seq![hex_digit(((x >> ((60 - 4 * k) as u64)) & 0xF) as int)] + hex64_digits(x, k + 1)
    }
}

/// A 64-bit value as 16 hexadecimal digits, most significant first.
pub open spec fn spec_hex64(x: u64) -> Seq<char> {
    hex64_digits(x, 0)
}

/// Appends the digits of `x` from nibble `k` on.
fn push_hex_digits(out: &mut Vec<char>, x: u64, k: usize)
    requires
        k <= 16,
    ensures
        final(out)@ == old(out)@ + hex64_digits(x, k as int),
    decreases 16 - k,
{
    if k == 16 {
        proof {
            assert(out@ =~= out@ + hex64_digits(x, 16));
        }
    } else {
        let shift: u64 = (60 - 4 * (k as u64)) as u64;
        proof {
            assert(((x >> shift) & 0xF) < 16) by (bit_vector);
        }
        let nib: u32 = ((x >> shift) & 0xF) as u32;
        out.push(hex_digit_exec(nib));
        push_hex_digits(out, x, k + 1);
        proof {
            assert(out@ =~= old(out)@ + hex64_digits(x, k as int));
        }
    }
}

/// Appends a 64-bit value as 16 hexadecimal digits.
fn push_hex64(out: &mut Vec<char>, x: u64)
    ensures
        final(out)@ == old(out)@ + spec_hex64(x),
{
    push_hex_digits(out, x, 0);
}

/// The characters of a keyword from position `i` on, each as 16 digits of
/// its code.
pub open spec fn kw_chars(sv: Seq<char>, i: int) -> Seq<char>
    decreases sv.len() - i,
{
    if i < 0 || i >= sv.len() {
        Seq::<char>::empty()
    } else {
        spec_hex64(sv[i] as u64) + kw_chars(sv, i + 1)
    }
}

/// One stored value as a tagged record.
pub open spec fn spec_value_enc(v: Value) -> Seq<char> {
    match v {
        Value::Number(n) => seq!['n'] + spec_hex64(n as u64),
        Value::Keyword(s) => seq!['k'] + spec_hex64(s@.len() as u64) + kw_chars(s@, 0),
        Value::Geo(g) => seq!['g'] + spec_hex64(g.lat as u64) + spec_hex64(g.lon as u64),
    }
}

/// Appends the keyword characters from position `i` on.
fn push_kw_chars(out: &mut Vec<char>, s: &str, i: usize)
    requires
        i <= s@.len(),
    ensures
        final(out)@ == old(out)@ + kw_chars(s@, i as int),
    decreases s@.len() - i,
{
    let n = s.unicode_len();
    if i == n {
        proof {
            assert(out@ =~= out@ + kw_chars(s@, i as int));
        }
    } else {
        push_hex64(out, s.get_char(i) as u64);
        push_kw_chars(out, s, i + 1);
        proof {
            assert(out@ =~= old(out)@ + kw_chars(s@, i as int));
        }
    }
}

/// Appends one stored value as a tagged record.
fn push_value(out: &mut Vec<char>, v: &Value)
    ensures
        final(out)@ == old(out)@ + spec_value_enc(*v),
{
    match v {
        Value::Number(n) => {
            out.push('n');
            push_hex64(out, *n as u64);
            proof {
                assert(out@ =~= old(out)@ + spec_value_enc(*v));
            }
        },
        Value::Keyword(s) => {
            out.push('k');
            push_hex64(out, s.as_str().unicode_len() as u64);
            push_kw_chars(out, s.as_str(), 0);
            proof {
                assert(out@ =~= old(out)@ + spec_value_enc(*v));
            }
        },
        Value::Geo(g) => {
            out.push('g');
            push_hex64(out, g.lat as u64);
            push_hex64(out, g.lon as u64);
            proof {
                assert(out@ =~= old(out)@ + spec_value_enc(*v));
            }
        },
    }
}

/// The stored values from position `j` on.
pub open spec fn vals_enc(vs: Seq<Value>, j: int) -> Seq<char>
    decreases vs.len() - j,
{
    if j < 0 || j >= vs.len() {
        Seq::<char>::empty()
    } else {
        spec_value_enc(vs[j]) + vals_enc(vs, j + 1)
    }
}

/// One point's optional stored list: absent, or tagged with its length
/// and values.
pub open spec fn spec_opt_enc(o: Option<Vec<Value>>) -> Seq<char> {
    match o {
        None => seq!['x'],
        Some(vals) => seq!['s'] + spec_hex64(vals@.len() as u64) + vals_enc(vals@, 0),
    }
}

/// Appends the stored values from position `j` on.
fn push_vals(out: &mut Vec<char>, vs: &Vec<Value>, j: usize)
    requires
        j <= vs@.len(),
    ensures
        final(out)@ == old(out)@ + vals_enc(vs@, j as int),
    decreases vs@.len() - j,
{
    if j == vs.len() {
        proof {
            assert(out@ =~= out@ + vals_enc(vs@, j as int));
        }
    } else {
        push_value(out, &vs[j]);
        push_vals(out, vs, j + 1);
        proof {
            assert(out@ =~= old(out)@ + vals_enc(vs@, j as int));
        }
    }
}

/// The per-point records from point `p` on.
pub open spec fn points_enc(pvs: Seq<Option<Vec<Value>>>, p: int) -> Seq<char>
    decreases pvs.len() - p,
{
    if p < 0 || p >= pvs.len() {
        Seq::<char>::empty()
    } else {
        spec_opt_enc(pvs[p]) + points_enc(pvs, p + 1)
    }
}

/// Appends the per-point records from point `p` on.
fn push_points(out: &mut Vec<char>, pvs: &Vec<Option<Vec<Value>>>, p: usize)
    requires
        p <= pvs@.len(),
    ensures
        final(out)@ == old(out)@ + points_enc(pvs@, p as int),
    decreases pvs@.len() - p,
{
    if p == pvs.len() {
        proof {
            assert(out@ =~= out@ + points_enc(pvs@, p as int));
        }
    } else {
        match &pvs[p] {
            None => {
                out.push('x');
            },
            Some(vals) => {
                out.push('s');
                push_hex64(out, vals.len() as u64);
                push_vals(out, vals, 0);
            },
        }
        proof {
            assert(out@ =~= old(out)@ + spec_opt_enc(pvs@[p as int]));
        }
        push_points(out, pvs, p + 1);
        proof {
            assert(out@ =~= old(out)@ + points_enc(pvs@, p as int));
        }
    }
}

/// The tag character naming a variant.
pub open spec fn variant_tag(fi: crate::field_index::FieldIndex) -> char {
    match fi {
        crate::field_index::FieldIndex::IntIndex(_) => 'I',
        crate::field_index::FieldIndex::IntMapIndex(_) => 'M',
        crate::field_index::FieldIndex::KeywordIndex(_) => 'K',
        crate::field_index::FieldIndex::FloatIndex(_) => 'F',
        crate::field_index::FieldIndex::GeoIndex(_) => 'G',
    }
}

/// One variant's record: its tag, its indexed-point count, and every
/// point's stored values.
pub open spec fn spec_variant_enc(fi: crate::field_index::FieldIndex) -> Seq<char> {
    seq![variant_tag(fi)] + spec_hex64(fi.data().indexed_count as u64) + spec_hex64(
        fi.data().point_values@.len() as u64,
    ) + points_enc(fi.data().point_values@, 0)
}

/// The variant records from position `i` on.
pub open spec fn variants_enc(v: Seq<crate::field_index::FieldIndex>, i: int) -> Seq<char>
    decreases v.len() - i,
{
    if i < 0 || i >= v.len() {
        Seq::<char>::empty()
    } else {
        spec_variant_enc(v[i]) + variants_enc(v, i + 1)
    }
}

/// The whole artifact: the variant count, then each variant's record.
pub open spec fn spec_encode_field_indexes(v: Seq<crate::field_index::FieldIndex>) -> Seq<char> {
    spec_hex64(v.len() as u64) + variants_enc(v, 0)
}

/// Appends the variant records from position `i` on.
fn push_variants(out: &mut Vec<char>, v: &Vec<crate::field_index::FieldIndex>, i: usize)
    requires
        i <= v@.len(),
    ensures
        final(out)@ == old(out)@ + variants_enc(v@, i as int),
    decreases v@.len() - i,
{
    if i == v.len() {
        proof {
            assert(out@ =~= out@ + variants_enc(v@, i as int));
        }
    } else {
        let idx = &v[i];
        match idx {
            crate::field_index::FieldIndex::IntIndex(_) => out.push('I'),
            crate::field_index::FieldIndex::IntMapIndex(_) => out.push('M'),
            crate::field_index::FieldIndex::KeywordIndex(_) => out.push('K'),
            crate::field_index::FieldIndex::FloatIndex(_) => out.push('F'),
            crate::field_index::FieldIndex::GeoIndex(_) => out.push('G'),
        }
        let d = idx.data_ref();
        push_hex64(out, d.indexed_count as u64);
        push_hex64(out, d.point_values.len() as u64);
        push_points(out, &d.point_values, 0);
        proof {
            assert(out@ =~= old(out)@ + spec_variant_enc(v@[i as int]));
        }
        push_variants(out, v, i + 1);
        proof {
            assert(out@ =~= old(out)@ + variants_enc(v@, i as int));
        }
    }
}

/// Encodes one key's index variants as a self-describing artifact: a
/// tagged record stream the segment verifies against its payloads on
/// load (by comparison with a fresh encoding) and regenerates when it
/// does not match.
pub fn encode_field_indexes(indexes: &Vec<crate::field_index::FieldIndex>) -> (r: Vec<char>)
    ensures
        r@ == spec_encode_field_indexes(indexes@),
{
    let mut out: Vec<char> = Vec::new();
    push_hex64(&mut out, indexes.len() as u64);
    push_variants(&mut out, indexes, 0);
    proof {
        assert(out@ =~= spec_encode_field_indexes(indexes@));
    }
    out
}

/// A character that needs escaping has a small code: a quote, a
/// backslash, or a control character.
proof fn lemma_unplain_bound(c: char)
    requires
        !plain_char(c),
    ensures
        0 <= c as int <= 0x5c,
        0 <= c as int / 16 < 16,
        0 <= c as int % 16 < 16,
{
    if c == '"' {
        assert(c as int == 0x22);
    } else if c == '\\' {
        assert(c as int == 0x5c);
    } else {
        assert((c as int) < 0x20);
        assert(c as int >= 0);
    }
}

/// The first character of an escape is never a quote.
proof fn lemma_escape_char_head(c: char)
    ensures
        escape_char(c).len() >= 1,
        escape_char(c)[0] != '"',
        plain_char(c) ==> escape_char(c)[0] == c,
        !plain_char(c) ==> escape_char(c)[0] == '\\' && escape_char(c).len() == 6,
{
}

/// An escaped string followed by its closing quote determines the string
/// and what follows: the encoding of keys is injective.
pub proof fn lemma_escape_terminated_injective(
    k1: Seq<char>,
    r1: Seq<char>,
    k2: Seq<char>,
    r2: Seq<char>,
)
    requires
        escape_str(k1) + seq!['"'] + r1 == escape_str(k2) + seq!['"'] + r2,
    ensures
        k1 == k2,
        r1 == r2,
    decreases k1.len(),
{
    let s = escape_str(k1) + seq!['"'] + r1;
    if k1.len() == 0 && k2.len() == 0 {
        assert(r1 =~= r2) by {
            assert(escape_str(k1).len() == 0 && escape_str(k2).len() == 0);
            assert((escape_str(k1) + seq!['"']).len() == 1);
            assert((escape_str(k2) + seq!['"']).len() == 1);
            assert((escape_str(k1) + seq!['"'] + r1).len() == 1 + r1.len());
            assert((escape_str(k2) + seq!['"'] + r2).len() == 1 + r2.len());
            assert(r1.len() == r2.len());
            assert forall|i: int| 0 <= i < r1.len() implies r1[i] == r2[i] by {
                assert((escape_str(k1) + seq!['"'] + r1)[i + 1] == r1[i]);
                assert((escape_str(k2) + seq!['"'] + r2)[i + 1] == r2[i]);
            }
        }
        assert(k1 =~= k2);
    } else if k1.len() == 0 {
        lemma_escape_char_head(k2[0]);
        assert(s[0] == '"');
        assert(escape_str(k2)[0] == escape_char(k2[0])[0]);
        assert(s[0] == escape_str(k2)[0]);
        assert(false);
    } else if k2.len() == 0 {
        lemma_escape_char_head(k1[0]);
        assert(s[0] == '"');
        assert(escape_str(k1)[0] == escape_char(k1[0])[0]);
        assert(s[0] == escape_str(k1)[0]);
        assert(false);
    } else {
        let c1 = k1[0];
        let c2 = k2[0];
        lemma_escape_char_head(c1);
        lemma_escape_char_head(c2);
        let t1 = escape_str(k1.drop_first()) + seq!['"'] + r1;
        let t2 = escape_str(k2.drop_first()) + seq!['"'] + r2;
        assert(s =~= escape_char(c1) + t1);
        assert(s =~= escape_char(c2) + t2);
        if plain_char(c1) && plain_char(c2) {
            assert(s[0] == c1 && s[0] == c2);
            assert(t1 =~= t2) by {
                assert(t1.len() == t2.len());
                assert forall|i: int| 0 <= i < t1.len() implies t1[i] == t2[i] by {
                    assert((escape_char(c1) + t1)[i + 1] == t1[i]);
                    assert((escape_char(c2) + t2)[i + 1] == t2[i]);
                }
            }
            lemma_escape_terminated_injective(k1.drop_first(), r1, k2.drop_first(), r2);
            assert(k1 =~= k2) by {
                assert forall|i: int| 0 <= i < k1.len() implies k1[i] == k2[i] by {
                    if i > 0 {
                        assert(k1.drop_first()[i - 1] == k1[i]);
                        assert(k2.drop_first()[i - 1] == k2[i]);
                    }
                }
            }
        } else if plain_char(c1) && !plain_char(c2) {
            assert(s[0] == c1 && s[0] == '\\');
            assert(false);
        } else if !plain_char(c1) && plain_char(c2) {
            assert(s[0] == c2 && s[0] == '\\');
            assert(false);
        } else {
            lemma_unplain_bound(c1);
            lemma_unplain_bound(c2);
            assert(s[4] == hex_digit(c1 as int / 16) && s[5] == hex_digit(c1 as int % 16)) by {
                assert((escape_char(c1) + t1)[4] == escape_char(c1)[4]);
                assert((escape_char(c1) + t1)[5] == escape_char(c1)[5]);
            }
            assert(s[4] == hex_digit(c2 as int / 16) && s[5] == hex_digit(c2 as int % 16)) by {
                assert((escape_char(c2) + t2)[4] == escape_char(c2)[4]);
                assert((escape_char(c2) + t2)[5] == escape_char(c2)[5]);
            }
            assert(c1 as int / 16 == c2 as int / 16 && c1 as int % 16 == c2 as int % 16);
            vstd::arithmetic::div_mod::lemma_fundamental_div_mod(c1 as int, 16);
            vstd::arithmetic::div_mod::lemma_fundamental_div_mod(c2 as int, 16);
            assert(c1 as int == c2 as int);
            assert(c1 == c2);
            assert(t1 =~= t2) by {
                assert(t1.len() == t2.len());
                assert forall|i: int| 0 <= i < t1.len() implies t1[i] == t2[i] by {
                    assert((escape_char(c1) + t1)[i + 6] == t1[i]);
                    assert((escape_char(c2) + t2)[i + 6] == t2[i]);
                }
            }
            lemma_escape_terminated_injective(k1.drop_first(), r1, k2.drop_first(), r2);
            assert(k1 =~= k2) by {
                assert forall|i: int| 0 <= i < k1.len() implies k1[i] == k2[i] by {
                    if i > 0 {
                        assert(k1.drop_first()[i - 1] == k1[i]);
                        assert(k2.drop_first()[i - 1] == k2[i]);
                    }
                }
            }
        }
    }
}

/// Cancels a common prefix of a sequence equality.
proof fn lemma_concat_cancel_left(a: Seq<char>, x: Seq<char>, y: Seq<char>)
    requires
        a + x == a + y,
    ensures
        x == y,
{
    assert((a + x).len() == a.len() + x.len());
    assert((a + y).len() == a.len() + y.len());
    assert(x =~= y) by {
        assert forall|i: int| 0 <= i < x.len() implies x[i] == y[i] by {
            assert((a + x)[a.len() + i] == x[i]);
            assert((a + y)[a.len() + i] == y[i]);
        }
    }
}

/// A non-empty entry list's encoding starts with a quote.
proof fn lemma_entries_head(e: Seq<ConfigEntry>)
    requires
        e.len() > 0,
    ensures
        spec_encode_entries(e).len() >= 1,
        spec_encode_entries(e)[0] == '"',
{
    assert(spec_encode_entry(e[0])[0] == '"');
    if e.len() == 1 {
    } else {
        assert(spec_encode_entries(e)[0] == spec_encode_entry(e[0])[0]);
    }
}

/// The schema words are told apart by their first character.
proof fn lemma_schema_word_heads()
    ensures
        "integer"@.len() == 7 && "integer"@[0] == 'i',
        "float"@.len() == 5 && "float"@[0] == 'f',
        "keyword"@.len() == 7 && "keyword"@[0] == 'k',
        "geo"@.len() == 3 && "geo"@[0] == 'g',
{
    reveal_strlit("integer");
    reveal_strlit("float");
    reveal_strlit("keyword");
    reveal_strlit("geo");
}

/// What follows the first encoded entry: a separating comma and the rest,
/// or the closing brace.
pub open spec fn entries_tail(e: Seq<ConfigEntry>, r: Seq<char>) -> Seq<char> {
    if e.len() == 1 {
        seq!['}'] + r
    } else {
        seq![','] + spec_encode_entries(e.drop_first()) + seq!['}'] + r
    }
}

/// Shape of a non-empty encoded entry list with its closing brace.
#[verifier::spinoff_prover]
proof fn lemma_entries_decompose(e: Seq<ConfigEntry>, r: Seq<char>)
    requires
        e.len() > 0,
    ensures
        spec_encode_entries(e) + seq!['}'] + r == seq!['"'] + (escape_str(e[0].key@) + seq!['"']
            + (seq![':', '"'] + schema_word(e[0].schema) + seq!['"'] + entries_tail(e, r))),
{
    if e.len() == 1 {
        assert(spec_encode_entries(e) == spec_encode_entry(e[0]));
    }
    assert(spec_encode_entries(e) + seq!['}'] + r =~= seq!['"'] + (escape_str(e[0].key@)
        + seq!['"'] + (seq![':', '"'] + schema_word(e[0].schema) + seq!['"'] + entries_tail(
        e,
        r,
    ))));
}

/// Encoded entry lists followed by a closing brace determine the entries
/// (up to key content and schema) and what follows.
#[verifier::rlimit(100)]
#[verifier::spinoff_prover]
pub proof fn lemma_encode_entries_injective(
    e1: Seq<ConfigEntry>,
    r1: Seq<char>,
    e2: Seq<ConfigEntry>,
    r2: Seq<char>,
)
    requires
        spec_encode_entries(e1) + seq!['}'] + r1 == spec_encode_entries(e2) + seq!['}'] + r2,
    ensures
        e1.len() == e2.len(),
        forall|i: int|
            0 <= i < e1.len() ==> (#[trigger] e1[i]).key@ == e2[i].key@ && e1[i].schema
                == e2[i].schema,
        r1 == r2,
    decreases e1.len(),
{
    let s = spec_encode_entries(e1) + seq!['}'] + r1;
    if e1.len() == 0 && e2.len() == 0 {
        assert(spec_encode_entries(e1) =~= Seq::<char>::empty());
        assert(spec_encode_entries(e2) =~= Seq::<char>::empty());
        assert(spec_encode_entries(e1) + seq!['}'] =~= spec_encode_entries(e2) + seq!['}']);
        lemma_concat_cancel_left(spec_encode_entries(e1) + seq!['}'], r1, r2);
    } else if e1.len() == 0 {
        lemma_entries_head(e2);
        assert(s[0] == '}');
        assert(s[0] == spec_encode_entries(e2)[0]);
        assert(false);
    } else if e2.len() == 0 {
        lemma_entries_head(e1);
        assert(s[0] == '}');
        assert(s[0] == spec_encode_entries(e1)[0]);
        assert(false);
    } else {
        lemma_schema_word_heads();
        let tail1 = entries_tail(e1, r1);
        let tail2 = entries_tail(e2, r2);
        let rest1 = seq![':', '"'] + schema_word(e1[0].schema) + seq!['"'] + tail1;
        let rest2 = seq![':', '"'] + schema_word(e2[0].schema) + seq!['"'] + tail2;
        lemma_entries_decompose(e1, r1);
        lemma_entries_decompose(e2, r2);
        lemma_concat_cancel_left(
            seq!['"'],
            escape_str(e1[0].key@) + seq!['"'] + rest1,
            escape_str(e2[0].key@) + seq!['"'] + rest2,
        );
        lemma_escape_terminated_injective(e1[0].key@, rest1, e2[0].key@, rest2);
        if e1[0].schema != e2[0].schema {
            assert(rest1[2] == schema_word(e1[0].schema)[0]);
            assert(rest2[2] == schema_word(e2[0].schema)[0]);
            assert(false);
        }
        assert(rest1 =~= (seq![':', '"'] + schema_word(e1[0].schema) + seq!['"']) + tail1);
        assert(rest2 =~= (seq![':', '"'] + schema_word(e1[0].schema) + seq!['"']) + tail2);
        lemma_concat_cancel_left(
            seq![':', '"'] + schema_word(e1[0].schema) + seq!['"'],
            tail1,
            tail2,
        );
        if e1.len() == 1 && e2.len() == 1 {
            lemma_concat_cancel_left(seq!['}'], r1, r2);
        } else if e1.len() == 1 {
            lemma_entries_head(e2.drop_first());
            assert(tail1[0] == '}');
            assert(tail2[0] == ',');
            assert(false);
        } else if e2.len() == 1 {
            lemma_entries_head(e1.drop_first());
            assert(tail1[0] == ',');
            assert(tail2[0] == '}');
            assert(false);
        } else {
            assert(tail1 =~= seq![','] + (spec_encode_entries(e1.drop_first()) + seq!['}']
                + r1));
            assert(tail2 =~= seq![','] + (spec_encode_entries(e2.drop_first()) + seq!['}']
                + r2));
            lemma_concat_cancel_left(
                seq![','],
                spec_encode_entries(e1.drop_first()) + seq!['}'] + r1,
                spec_encode_entries(e2.drop_first()) + seq!['}'] + r2,
            );
            lemma_encode_entries_injective(e1.drop_first(), r1, e2.drop_first(), r2);
            assert forall|i: int|
                0 <= i < e1.len() implies (#[trigger] e1[i]).key@ == e2[i].key@ && e1[i].schema
                == e2[i].schema by {
                if i > 0 {
                    assert(e1.drop_first()[i - 1] == e1[i]);
                    assert(e2.drop_first()[i - 1] == e2[i]);
                }
            }
        }
    }
}

/// The whole config file encoding is injective: equal file contents mean
/// the same indexed fields with the same schemas.
pub proof fn lemma_encode_config_injective(e1: Seq<ConfigEntry>, e2: Seq<ConfigEntry>)
    requires
        spec_encode_config(e1) == spec_encode_config(e2),
    ensures
        e1.len() == e2.len(),
        forall|i: int|
            0 <= i < e1.len() ==> (#[trigger] e1[i]).key@ == e2[i].key@ && e1[i].schema
                == e2[i].schema,
{
    reveal_strlit("{\"indexed_fields\":{");
    reveal_strlit("}}");
    assert("}}"@ =~= seq!['}'] + seq!['}']);
    assert(spec_encode_config(e1) =~= "{\"indexed_fields\":{"@ + (spec_encode_entries(e1)
        + seq!['}'] + seq!['}']));
    assert(spec_encode_config(e2) =~= "{\"indexed_fields\":{"@ + (spec_encode_entries(e2)
        + seq!['}'] + seq!['}']));
    lemma_concat_cancel_left(
        "{\"indexed_fields\":{"@,
        spec_encode_entries(e1) + seq!['}'] + seq!['}'],
        spec_encode_entries(e2) + seq!['}'] + seq!['}'],
    );
    lemma_encode_entries_injective(e1, seq!['}'], e2, seq!['}']);
}

} // verus!
