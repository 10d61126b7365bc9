use vstd::prelude::*;

use crate::EmailKind;

verus! {

// ---------------------------------------------------------------------------
// Encoding: the three request bodies the API operations POST.
// ---------------------------------------------------------------------------

/// The decimal digit character for `n < 10`.
pub open spec fn digit_char(n: nat) -> char {
    if n == 0 {
        '0'
    } else if n == 1 {
        '1'
    } else if n == 2 {
        '2'
    } else if n == 3 {
        '3'
    } else if n == 4 {
        '4'
    } else if n == 5 {
        '5'
    } else if n == 6 {
        '6'
    } else if n == 7 {
        '7'
    } else if n == 8 {
        '8'
    } else {
        '9'
    }
}

/// The decimal notation of `n`, most significant digit first.
pub open spec fn dec_digits(n: nat) -> Seq<char>
    decreases n,
{
    if n < 10 {
        seq![digit_char(n)]
    } else {
        dec_digits(n / 10).push(digit_char(n % 10))
    }
}

/// The hexadecimal digit character for `n < 16`.
pub open spec fn hex_char(n: nat) -> char {
    if n < 10 {
        digit_char(n)
    } else if n == 10 {
        'a'
    } else if n == 11 {
        'b'
    } else if n == 12 {
        'c'
    } else if n == 13 {
        'd'
    } else if n == 14 {
        'e'
    } else {
        'f'
    }
}

/// How one character appears inside a JSON string literal: quote and
/// backslash get a backslash escape, the common control characters their
/// short escapes, the remaining control characters a `\u00XX` escape, and
/// everything else stands for itself.
pub open spec fn escape_char(c: char) -> Seq<char> {
    if c == '"' {
        seq!['\\', '"']
    } else if c == '\\' {
        seq!['\\', '\\']
    } else if c == '\n' {
        seq!['\\', 'n']
    } else if c == '\r' {
        seq!['\\', 'r']
    } else if c == '\t' {
        seq!['\\', 't']
    } else if (c as u32) < 0x20 {
        seq!['\\', 'u', '0', '0', hex_char((c as u32 / 16) as nat), hex_char((c as u32 % 16) as nat)]
    } else {
        seq![c]
    }
}

/// A string's characters with each escaped for JSON.
pub open spec fn json_escaped(s: Seq<char>) -> Seq<char>
    decreases s.len(),
{
    if s.len() == 0 {
        Seq::empty()
    } else {
        escape_char(s[0]) + json_escaped(s.skip(1))
    }
}

/// A JSON string literal holding `s`.
pub open spec fn quoted(s: Seq<char>) -> Seq<char> {
    seq!['"'] + json_escaped(s) + seq!['"']
}

/// The wire label of an email kind: the variant's name with a lowercase
/// first letter.
pub open spec fn kind_label(k: EmailKind) -> Seq<char> {
    match k {
        EmailKind::Domain => "domain"@,
        EmailKind::PlusGmail => "plusGmail"@,
        EmailKind::DotGmail => "dotGmail"@,
        EmailKind::GoogleMail => "googleMail"@,
    }
}

/// The comma-separated JSON list of kind labels, each quoted.
pub open spec fn kind_list(kinds: Seq<EmailKind>) -> Seq<char>
    decreases kinds.len(),
{
    if kinds.len() == 0 {
        Seq::empty()
    } else {
        quoted(kind_label(kinds[0])) + kind_rest(kinds.skip(1))
    }
}

/// The continuation of a kind list: a leading comma before each label.
pub open spec fn kind_rest(kinds: Seq<EmailKind>) -> Seq<char>
    decreases kinds.len(),
{
    if kinds.len() == 0 {
        Seq::empty()
    } else {
        seq![','] + quoted(kind_label(kinds[0])) + kind_rest(kinds.skip(1))
    }
}

/// The body POSTed to the generation endpoint:
/// `{"email":[<kinds>],"emailNo":<count>}`.
pub open spec fn create_emails_body(kinds: Seq<EmailKind>, count: u32) -> Seq<char> {
    "{\"email\":["@ + kind_list(kinds) + "],\"emailNo\":"@ + dec_digits(count as nat) + "}"@
}

/// The body POSTed to the inbox endpoint to list messages:
/// `{"email":<email>}`.
pub open spec fn fetch_inbox_body(email: Seq<char>) -> Seq<char> {
    "{\"email\":"@ + quoted(email) + "}"@
}

/// The body POSTed to the inbox endpoint to read one message:
/// `{"email":<email>,"messageID":<id>}`.
pub open spec fn read_message_body(email: Seq<char>, id: Seq<char>) -> Seq<char> {
    "{\"email\":"@ + quoted(email) + ",\"messageID\":"@ + quoted(id) + "}"@
}

/// Relies on `String::push`: appends exactly the one character.
#[verifier::external_body]
pub fn push_char(out: &mut String, c: char)
    ensures
        final(out)@ == old(out)@.push(c),
{
    out.push(c);
}

/// The decimal digit character for `n < 10`, executably.
fn digit_char_exec(n: u32) -> (r: char)
    requires
        n < 10,
    ensures
        r == digit_char(n as nat),
{
    if n == 0 {
        '0'
    } else if n == 1 {
        '1'
    } else if n == 2 {
        '2'
    } else if n == 3 {
        '3'
    } else if n == 4 {
        '4'
    } else if n == 5 {
        '5'
    } else if n == 6 {
        '6'
    } else if n == 7 {
        '7'
    } else if n == 8 {
        '8'
    } else {
        '9'
    }
}

/// The hexadecimal digit character for `n < 16`, executably.
fn hex_char_exec(n: u32) -> (r: char)
    requires
        n < 16,
    ensures
        r == hex_char(n as nat),
{
    if n < 10 {
        digit_char_exec(n)
    } else if n == 10 {
        'a'
    } else if n == 11 {
        'b'
    } else if n == 12 {
        'c'
    } else if n == 13 {
        'd'
    } else if n == 14 {
        'e'
    } else {
        'f'
    }
}

/// Appends the decimal notation of `n`.
fn push_dec(out: &mut String, n: u32)
    ensures
        final(out)@ == old(out)@ + dec_digits(n as nat),
    decreases n,
{
    if n < 10 {
        push_char(out, digit_char_exec(n));
        proof {
            assert(old(out)@.push(digit_char(n as nat)) =~= old(out)@ + dec_digits(n as nat));
        }
    } else {
        push_dec(out, n / 10);
        push_char(out, digit_char_exec(n % 10));
        proof {
            assert((old(out)@ + dec_digits((n / 10) as nat)).push(digit_char((n % 10) as nat))
                =~= old(out)@ + dec_digits(n as nat));
        }
    }
}

/// Appends the characters of `s` from position `i` on, each escaped
/// for JSON.
fn push_escaped_from(out: &mut String, s: &str, i: usize)
    requires
        i <= s@.len(),
    ensures
        final(out)@ == old(out)@ + json_escaped(s@.skip(i as int)),
    decreases s@.len() - i@,
{
    let n = s.unicode_len();
    if i == n {
        proof {
            assert(s@.skip(i as int) =~= Seq::<char>::empty());
            assert(old(out)@ + Seq::<char>::empty() =~= old(out)@);
        }
        return ;
    }
    let c = s.get_char(i);
    let ghost before = out@;
    if c == '"' {
        push_char(out, '\\');
        push_char(out, '"');
    } else if c == '\\' {
        push_char(out, '\\');
        push_char(out, '\\');
    } else if c == '\n' {
        push_char(out, '\\');
        push_char(out, 'n');
    } else if c == '\r' {
        push_char(out, '\\');
        push_char(out, 'r');
    } else if c == '\t' {
        push_char(out, '\\');
        push_char(out, 't');
    } else if (c as u32) < 0x20 {
        push_char(out, '\\');
        push_char(out, 'u');
        push_char(out, '0');
        push_char(out, '0');
        push_char(out, hex_char_exec((c as u32) / 16));
        push_char(out, hex_char_exec((c as u32) % 16));
    } else {
        push_char(out, c);
    }
    proof {
        assert(out@ =~= before + escape_char(s@[i as int]));
    }
    push_escaped_from(out, s, i + 1);
    proof {
        let rest = s@.skip(i as int);
        assert(rest[0] == s@[i as int]);
        assert(rest.skip(1) =~= s@.skip(i as int + 1));
        assert(json_escaped(rest) == escape_char(s@[i as int]) + json_escaped(
            s@.skip(i as int + 1),
        ));
        assert(final(out)@ =~= old(out)@ + json_escaped(s@.skip(i as int)));
    }
}

/// Appends `s` as a JSON string literal.
fn push_quoted(out: &mut String, s: &str)
    ensures
        final(out)@ == old(out)@ + quoted(s@),
{
    push_char(out, '"');
    push_escaped_from(out, s, 0);
    push_char(out, '"');
    proof {
        assert(s@.skip(0) =~= s@);
        assert(final(out)@ =~= old(out)@ + quoted(s@));
    }
}

/// The wire label of an email kind, executably.
fn kind_label_exec(k: EmailKind) -> (r: &'static str)
    ensures
        r@ == kind_label(k),
{
    match k {
        EmailKind::Domain => "domain",
        EmailKind::PlusGmail => "plusGmail",
        EmailKind::DotGmail => "dotGmail",
        EmailKind::GoogleMail => "googleMail",
    }
}

/// Appends the quoted labels of `kinds[i..]`, comma-separated, assuming
/// a label has already been written for `i > 0`.
fn push_kinds_from(out: &mut String, kinds: &Vec<EmailKind>, i: usize)
    requires
        i <= kinds@.len(),
    ensures
        final(out)@ == old(out)@ + kind_rest(kinds@.skip(i as int)),
    decreases kinds@.len() - i@,
{
    if i == kinds.len() {
        proof {
            assert(kinds@.skip(i as int) =~= Seq::<EmailKind>::empty());
            assert(old(out)@ + Seq::<char>::empty() =~= old(out)@);
        }
        return ;
    }
    let ghost before = out@;
    push_char(out, ',');
    push_quoted(out, kind_label_exec(kinds[i]));
    proof {
        assert(out@ =~= before + seq![','] + quoted(kind_label(kinds@[i as int])));
    }
    push_kinds_from(out, kinds, i + 1);
    proof {
        let rest = kinds@.skip(i as int);
        assert(rest[0] == kinds@[i as int]);
        assert(rest.skip(1) =~= kinds@.skip(i as int + 1));
        assert(kind_rest(rest) == seq![','] + quoted(kind_label(kinds@[i as int])) + kind_rest(
            kinds@.skip(i as int + 1),
        ));
        assert(final(out)@ =~= old(out)@ + kind_rest(kinds@.skip(i as int)));
    }
}

/// Appends the full, bracketed JSON list of kind labels.
fn push_kind_list(out: &mut String, kinds: &Vec<EmailKind>)
    ensures
        final(out)@ == old(out)@ + kind_list(kinds@),
{
    if kinds.len() == 0 {
        proof {
            assert(old(out)@ + kind_list(kinds@) =~= old(out)@);
        }
        return ;
    }
    let ghost before = out@;
    push_quoted(out, kind_label_exec(kinds[0]));
    push_kinds_from(out, kinds, 1);
    proof {
        assert(final(out)@ =~= old(out)@ + (quoted(kind_label(kinds@[0])) + kind_rest(
            kinds@.skip(1),
        )));
        assert(quoted(kind_label(kinds@[0])) + kind_rest(kinds@.skip(1)) =~= kind_list(kinds@));
    }
}

/// Builds `{"email":[<kinds>],"emailNo":<count>}`.
pub fn encode_create_emails(kinds: &Vec<EmailKind>, count: u32) -> (r: String)
    ensures
        r@ == create_emails_body(kinds@, count),
{
    let mut out = String::new();
    out.append("{\"email\":[");
    push_kind_list(&mut out, kinds);
    out.append("],\"emailNo\":");
    push_dec(&mut out, count);
    out.append("}");
    proof {
        assert(out@ =~= create_emails_body(kinds@, count));
    }
    out
}

/// Builds `{"email":<email>}`.
pub fn encode_fetch_inbox(email: &str) -> (r: String)
    ensures
        r@ == fetch_inbox_body(email@),
{
    let mut out = String::new();
    out.append("{\"email\":");
    push_quoted(&mut out, email);
    out.append("}");
    proof {
        assert(out@ =~= fetch_inbox_body(email@));
    }
    out
}

/// Builds `{"email":<email>,"messageID":<id>}`.
pub fn encode_read_message(email: &str, id: &str) -> (r: String)
    ensures
        r@ == read_message_body(email@, id@),
{
    let mut out = String::new();
    out.append("{\"email\":");
    push_quoted(&mut out, email);
    out.append(",\"messageID\":");
    push_quoted(&mut out, id);
    out.append("}");
    proof {
        assert(out@ =~= read_message_body(email@, id@));
    }
    out
}


// ---------------------------------------------------------------------------
// Parsing: the two JSON response shapes the API operations decode.
// ---------------------------------------------------------------------------

/// JSON insignificant whitespace.
pub open spec fn is_ws(c: char) -> bool {
    c == ' ' || c == '\n' || c == '\t' || c == '\r'
}

/// The first position at or after `i` that holds no whitespace.
pub open spec fn skip_ws(s: Seq<char>, i: int) -> int
    decreases s.len() - i,
{
    if i < 0 || i >= s.len() {
        i
    } else if is_ws(s[i]) {
        skip_ws(s, i + 1)
    } else {
        i
    }
}

/// `skip_ws` never moves backwards and never runs past the end.
proof fn lemma_skip_ws(s: Seq<char>, i: int)
    requires
        0 <= i,
    ensures
        i <= skip_ws(s, i),
        i <= s.len() ==> skip_ws(s, i) <= s.len(),
    decreases s.len() - i,
{
    if i < s.len() && is_ws(s[i]) {
        lemma_skip_ws(s, i + 1);
    }
}

/// The character a short JSON escape stands for, if the escape exists.
pub open spec fn unescape(c: char) -> Option<char> {
    if c == '"' {
        Some('"')
    } else if c == '\\' {
        Some('\\')
    } else if c == '/' {
        Some('/')
    } else if c == 'n' {
        Some('\n')
    } else if c == 't' {
        Some('\t')
    } else if c == 'r' {
        Some('\r')
    } else if c == 'b' {
        Some('\u{0008}')
    } else if c == 'f' {
        Some('\u{000C}')
    } else {
        None
    }
}

/// The value of a hexadecimal digit character, upper or lower case.
pub open spec fn hex_val(c: char) -> Option<u32> {
    let u = c as u32;
    if 0x30 <= u && u <= 0x39 {
        Some((u - 0x30) as u32)
    } else if 0x41 <= u && u <= 0x46 {
        Some((u - 0x37) as u32)
    } else if 0x61 <= u && u <= 0x66 {
        Some((u - 0x57) as u32)
    } else {
        None
    }
}

/// The value of the four hexadecimal digits at `s[i..i + 4]`, if all
/// four positions hold one.
pub open spec fn hex4(s: Seq<char>, i: int) -> Option<u32> {
    match (hex_val(s[i]), hex_val(s[i + 1]), hex_val(s[i + 2]), hex_val(s[i + 3])) {
        (Some(a), Some(b), Some(c), Some(d)) => Some((a * 4096 + b * 256 + c * 16 + d) as u32),
        _ => None,
    }
}

/// The content of a JSON string literal from position `i` (just past the
/// opening quote) to its closing quote: the unescaped characters and the
/// position after the closing quote. Escapes are the short ones and
/// `\u` with four hex digits naming a scalar value; a `\u` escape
/// naming a surrogate is rejected (surrogate pairs are not combined), as
/// are raw control characters.
pub open spec fn parse_chars(s: Seq<char>, i: int) -> Option<(Seq<char>, int)>
    decreases s.len() - i,
{
    if i < 0 || i >= s.len() {
        None
    } else if s[i] == '"' {
        Some((Seq::empty(), i + 1))
    } else if s[i] == '\\' {
        if i + 1 < s.len() {
            if s[i + 1] == 'u' {
                if i + 6 <= s.len() {
                    match hex4(s, i + 2) {
                        Some(code) => if code < 0xD800 || 0xDFFF < code {
                            match parse_chars(s, i + 6) {
                                Some(p) => Some((seq![code as char] + p.0, p.1)),
                                None => None,
                            }
                        } else {
                            None
                        },
                        None => None,
                    }
                } else {
                    None
                }
            } else {
                match unescape(s[i + 1]) {
                    Some(c) => match parse_chars(s, i + 2) {
                        Some(p) => Some((seq![c] + p.0, p.1)),
                        None => None,
                    },
                    None => None,
                }
            }
        } else {
            None
        }
    } else if (s[i] as u32) < 0x20 {
        None
    } else {
        match parse_chars(s, i + 1) {
            Some(p) => Some((seq![s[i]] + p.0, p.1)),
            None => None,
        }
    }
}

/// A full JSON string literal at position `i`: its opening quote, content
/// and closing quote.
pub open spec fn parse_string(s: Seq<char>, i: int) -> Option<(Seq<char>, int)> {
    if 0 <= i < s.len() && s[i] == '"' {
        parse_chars(s, i + 1)
    } else {
        None
    }
}

/// A successful `parse_chars` always advances past at least the closing
/// quote and stays within the input.
proof fn lemma_parse_chars_bounds(s: Seq<char>, i: int)
    ensures
        parse_chars(s, i) matches Some(p) ==> 0 <= i && i < p.1 <= s.len(),
    decreases s.len() - i,
{
    if 0 <= i < s.len() {
        if s[i] == '\\' {
            if i + 1 < s.len() {
                if s[i + 1] == 'u' {
                    if i + 6 <= s.len() {
                        lemma_parse_chars_bounds(s, i + 6);
                    }
                } else {
                    lemma_parse_chars_bounds(s, i + 2);
                }
            }
        } else if s[i] != '"' {
            lemma_parse_chars_bounds(s, i + 1);
        }
    }
}

/// A successful `parse_string` advances and stays within the input.
proof fn lemma_parse_string_bounds(s: Seq<char>, i: int)
    ensures
        parse_string(s, i) matches Some(p) ==> 0 <= i && i < p.1 <= s.len(),
{
    if 0 <= i < s.len() && s[i] == '"' {
        lemma_parse_chars_bounds(s, i + 1);
    }
}

/// One or more comma-separated JSON strings at position `i`, ended by a
/// closing bracket: the string values and the position after the bracket.
pub open spec fn parse_string_items(s: Seq<char>, i: int) -> Option<(Seq<Seq<char>>, int)>
    decreases s.len() - i,
    via parse_string_items_decreases
{
    match parse_string(s, i) {
        None => None,
        Some(p) => {
            let k: int = skip_ws(s, p.1);
            if k < s.len() && s[k] == ',' {
                match parse_string_items(s, skip_ws(s, k + 1)) {
                    None => None,
                    Some(q) => Some((seq![p.0] + q.0, q.1)),
                }
            } else if k < s.len() && s[k] == ']' {
                Some((seq![p.0], k + 1))
            } else {
                None
            }
        },
    }
}

#[via_fn]
proof fn parse_string_items_decreases(s: Seq<char>, i: int) {
    lemma_parse_string_bounds(s, i);
    if let Some(p) = parse_string(s, i) {
        lemma_skip_ws(s, p.1);
        let k: int = skip_ws(s, p.1);
        if k < s.len() && s[k] == ',' {
            lemma_skip_ws(s, k + 1);
        }
    }
}

/// A JSON array of strings at position `i`: brackets, optional content.
pub open spec fn parse_string_array(s: Seq<char>, i: int) -> Option<(Seq<Seq<char>>, int)> {
    if 0 <= i < s.len() && s[i] == '[' {
        let k: int = skip_ws(s, i + 1);
        if k < s.len() && s[k] == ']' {
            Some((Seq::empty(), k + 1))
        } else {
            parse_string_items(s, k)
        }
    } else {
        None
    }
}

/// Array-item bounds: a successful parse advances within the input.
proof fn lemma_parse_string_items_bounds(s: Seq<char>, i: int)
    ensures
        parse_string_items(s, i) matches Some(p) ==> 0 <= i && i < p.1 <= s.len(),
    decreases s.len() - i,
{
    lemma_parse_string_bounds(s, i);
    if let Some(p) = parse_string(s, i) {
        lemma_skip_ws(s, p.1);
        let k: int = skip_ws(s, p.1);
        if k < s.len() && s[k] == ',' {
            lemma_skip_ws(s, k + 1);
            lemma_parse_string_items_bounds(s, skip_ws(s, k + 1));
        }
    }
}

/// String-array bounds: a successful parse advances within the input.
proof fn lemma_parse_string_array_bounds(s: Seq<char>, i: int)
    ensures
        parse_string_array(s, i) matches Some(p) ==> 0 <= i && i < p.1 <= s.len(),
{
    if 0 <= i < s.len() && s[i] == '[' {
        lemma_skip_ws(s, i + 1);
        lemma_parse_string_items_bounds(s, skip_ws(s, i + 1));
    }
}

/// A character that can appear in a JSON scalar token: a digit, sign,
/// decimal point, exponent letter, or a lowercase letter of `true`,
/// `false` or `null`.
pub open spec fn is_scalar_char(c: char) -> bool {
    let u = c as u32;
    (0x30 <= u && u <= 0x39) || c == '-' || c == '+' || c == '.' || c == 'E' || (0x61 <= u && u
        <= 0x7A)
}

/// The position after a JSON scalar token at `i`: a nonempty run of
/// scalar characters. The token's inner grammar is not checked — these
/// tokens occur only in members the operations do not read.
pub open spec fn skip_scalar(s: Seq<char>, i: int) -> Option<int>
    decreases s.len() - i,
{
    if i < 0 || i >= s.len() || !is_scalar_char(s[i]) {
        None
    } else if i + 1 < s.len() && is_scalar_char(s[i + 1]) {
        skip_scalar(s, i + 1)
    } else {
        Some(i + 1)
    }
}

/// Scalar bounds: a successful skip advances within the input.
proof fn lemma_skip_scalar_bounds(s: Seq<char>, i: int)
    ensures
        skip_scalar(s, i) matches Some(j) ==> 0 <= i && i < j <= s.len(),
    decreases s.len() - i,
{
    if 0 <= i < s.len() && is_scalar_char(s[i]) && i + 1 < s.len() && is_scalar_char(s[i + 1]) {
        lemma_skip_scalar_bounds(s, i + 1);
    }
}

/// The position after one JSON value at `i`: a string, an array, an
/// object, or a scalar token. Strings and the structure of containers
/// are checked; scalar tokens only by their alphabet. This is how the
/// members of a response object that an operation does not read are
/// skipped.
pub open spec fn skip_value(s: Seq<char>, i: int) -> Option<int>
    decreases s.len() - i, 0int,
    via skip_value_decreases
{
    if i < 0 || i >= s.len() {
        None
    } else if s[i] == '"' {
        match parse_string(s, i) {
            Some(p) => Some(p.1),
            None => None,
        }
    } else if s[i] == '[' {
        let k: int = skip_ws(s, i + 1);
        if k < s.len() && s[k] == ']' {
            Some(k + 1)
        } else {
            skip_items(s, k)
        }
    } else if s[i] == '{' {
        let k: int = skip_ws(s, i + 1);
        if k < s.len() && s[k] == '}' {
            Some(k + 1)
        } else {
            skip_members(s, k)
        }
    } else {
        skip_scalar(s, i)
    }
}

/// The elements of a JSON array from the first element on, ended by `]`.
/// A sub-parse always advances; the explicit check keeps the mutual
/// recursion visibly well-founded.
pub open spec fn skip_items(s: Seq<char>, i: int) -> Option<int>
    decreases s.len() - i, 1int,
    via skip_items_decreases
{
    if i < 0 || i > s.len() {
        None
    } else {
        match skip_value(s, i) {
            None => None,
            Some(j) => if j <= i || j > s.len() {
                None
            } else {
                let m: int = skip_ws(s, j);
                if m < s.len() && s[m] == ',' {
                    skip_items(s, skip_ws(s, m + 1))
                } else if m < s.len() && s[m] == ']' {
                    Some(m + 1)
                } else {
                    None
                }
            },
        }
    }
}

/// The members of a JSON object from the first member on, ended by `}`:
/// each a string key, a colon and a value of any kind, all unread.
pub open spec fn skip_members(s: Seq<char>, i: int) -> Option<int>
    decreases s.len() - i, 1int,
    via skip_members_decreases
{
    if i < 0 || i > s.len() {
        None
    } else {
        match parse_string(s, i) {
            None => None,
            Some(k) => {
                let c: int = skip_ws(s, k.1);
                if c < s.len() && s[c] == ':' {
                    match skip_value(s, skip_ws(s, c + 1)) {
                        None => None,
                        Some(j) => if j <= i || j > s.len() {
                            None
                        } else {
                            let m: int = skip_ws(s, j);
                            if m < s.len() && s[m] == ',' {
                                skip_members(s, skip_ws(s, m + 1))
                            } else if m < s.len() && s[m] == '}' {
                                Some(m + 1)
                            } else {
                                None
                            }
                        },
                    }
                } else {
                    None
                }
            },
        }
    }
}

#[via_fn]
proof fn skip_value_decreases(s: Seq<char>, i: int) {
    if 0 <= i < s.len() {
        lemma_skip_ws(s, i + 1);
    }
}

#[via_fn]
proof fn skip_items_decreases(s: Seq<char>, i: int) {
    assert forall|x: int| 0 <= x implies x <= #[trigger] skip_ws(s, x) && (x <= s.len()
        ==> skip_ws(s, x) <= s.len()) by {
        lemma_skip_ws(s, x);
    }
}

#[via_fn]
proof fn skip_members_decreases(s: Seq<char>, i: int) {
    assert forall|x: int| 0 <= x implies x <= #[trigger] skip_ws(s, x) && (x <= s.len()
        ==> skip_ws(s, x) <= s.len()) by {
        lemma_skip_ws(s, x);
    }
    assert forall|x: int| #[trigger] parse_string(s, x) is Some implies 0 <= x && x
        < (parse_string(s, x)->0).1 <= s.len() by {
        lemma_parse_string_bounds(s, x);
    }
}

/// Value bounds: a successful skip advances within the input.
proof fn lemma_skip_value_bounds(s: Seq<char>, i: int)
    ensures
        skip_value(s, i) matches Some(j) ==> 0 <= i && i < j <= s.len(),
    decreases s.len() - i, 0int,
{
    if 0 <= i < s.len() {
        if s[i] == '"' {
            lemma_parse_string_bounds(s, i);
        } else if s[i] == '[' {
            lemma_skip_ws(s, i + 1);
            lemma_skip_items_bounds(s, skip_ws(s, i + 1));
        } else if s[i] == '{' {
            lemma_skip_ws(s, i + 1);
            lemma_skip_members_bounds(s, skip_ws(s, i + 1));
        } else {
            lemma_skip_scalar_bounds(s, i);
        }
    }
}

/// Item-list bounds: a successful skip advances within the input.
proof fn lemma_skip_items_bounds(s: Seq<char>, i: int)
    ensures
        skip_items(s, i) matches Some(j) ==> 0 <= i && i < j <= s.len(),
    decreases s.len() - i, 1int,
{
    if 0 <= i <= s.len() {
        lemma_skip_value_bounds(s, i);
        if let Some(j) = skip_value(s, i) {
            if i < j <= s.len() {
                lemma_skip_ws(s, j);
                let m: int = skip_ws(s, j);
                if m < s.len() && s[m] == ',' {
                    lemma_skip_ws(s, m + 1);
                    lemma_skip_items_bounds(s, skip_ws(s, m + 1));
                }
            }
        }
    }
}

/// Member-list bounds: a successful skip advances within the input.
proof fn lemma_skip_members_bounds(s: Seq<char>, i: int)
    ensures
        skip_members(s, i) matches Some(j) ==> 0 <= i && i < j <= s.len(),
    decreases s.len() - i, 1int,
{
    if 0 <= i <= s.len() {
        lemma_parse_string_bounds(s, i);
        if let Some(k) = parse_string(s, i) {
            lemma_skip_ws(s, k.1);
            let c: int = skip_ws(s, k.1);
            if c < s.len() && s[c] == ':' {
                lemma_skip_ws(s, c + 1);
                lemma_skip_value_bounds(s, skip_ws(s, c + 1));
                if let Some(j) = skip_value(s, skip_ws(s, c + 1)) {
                    if i < j <= s.len() {
                        lemma_skip_ws(s, j);
                        let m: int = skip_ws(s, j);
                        if m < s.len() && s[m] == ',' {
                            lemma_skip_ws(s, m + 1);
                            lemma_skip_members_bounds(s, skip_ws(s, m + 1));
                        }
                    }
                }
            }
        }
    }
}

/// One mail header member's value at `i`, dispatched on the (decoded)
/// key: a key the record reads must hold a string and must not repeat;
/// any other member's value is skipped unread.
pub open spec fn header_member_value(
    s: Seq<char>,
    i: int,
    key: Seq<char>,
    id: Option<Seq<char>>,
    from: Option<Seq<char>>,
    subject: Option<Seq<char>>,
) -> Option<((Option<Seq<char>>, Option<Seq<char>>, Option<Seq<char>>), int)> {
    if key == "messageID"@ {
        if id is Some {
            None
        } else {
            match parse_string(s, i) {
                Some(p) => Some(((Some(p.0), from, subject), p.1)),
                None => None,
            }
        }
    } else if key == "from"@ {
        if from is Some {
            None
        } else {
            match parse_string(s, i) {
                Some(p) => Some(((id, Some(p.0), subject), p.1)),
                None => None,
            }
        }
    } else if key == "subject"@ {
        if subject is Some {
            None
        } else {
            match parse_string(s, i) {
                Some(p) => Some(((id, from, Some(p.0)), p.1)),
                None => None,
            }
        }
    } else {
        match skip_value(s, i) {
            Some(j) => Some(((id, from, subject), j)),
            None => None,
        }
    }
}

/// Header-member-value bounds: a successful parse advances.
proof fn lemma_header_member_value_bounds(
    s: Seq<char>,
    i: int,
    key: Seq<char>,
    id: Option<Seq<char>>,
    from: Option<Seq<char>>,
    subject: Option<Seq<char>>,
)
    ensures
        header_member_value(s, i, key, id, from, subject) matches Some(q) ==> 0 <= i && i < q.1
            <= s.len(),
{
    lemma_parse_string_bounds(s, i);
    lemma_skip_value_bounds(s, i);
}

/// The members of a mail header object from the first member on, in any
/// order: `messageID`, `from` and `subject` must each appear exactly
/// once, holding strings; every other member is skipped. Ends just past
/// the closing brace.
pub open spec fn parse_header_members(
    s: Seq<char>,
    i: int,
    id: Option<Seq<char>>,
    from: Option<Seq<char>>,
    subject: Option<Seq<char>>,
) -> Option<(crate::MailHeaderView, int)>
    decreases s.len() - i,
    via parse_header_members_decreases
{
    match parse_string(s, i) {
        None => None,
        Some(k) => {
            let c: int = skip_ws(s, k.1);
            if c < s.len() && s[c] == ':' {
                match header_member_value(s, skip_ws(s, c + 1), k.0, id, from, subject) {
                    None => None,
                    Some(q) => {
                        let m: int = skip_ws(s, q.1);
                        if m < s.len() && s[m] == ',' {
                            parse_header_members(s, skip_ws(s, m + 1), q.0.0, q.0.1, q.0.2)
                        } else if m < s.len() && s[m] == '}' {
                            match (q.0.0, q.0.1, q.0.2) {
                                (Some(id2), Some(from2), Some(subject2)) => Some(
                                    (
                                        crate::MailHeaderView {
                                            id: id2,
                                            from: from2,
                                            subject: subject2,
                                        },
                                        m + 1,
                                    ),
                                ),
                                _ => None,
                            }
                        } else {
                            None
                        }
                    },
                }
            } else {
                None
            }
        },
    }
}

#[via_fn]
proof fn parse_header_members_decreases(
    s: Seq<char>,
    i: int,
    id: Option<Seq<char>>,
    from: Option<Seq<char>>,
    subject: Option<Seq<char>>,
) {
    assert forall|x: int| 0 <= x implies x <= #[trigger] skip_ws(s, x) && (x <= s.len()
        ==> skip_ws(s, x) <= s.len()) by {
        lemma_skip_ws(s, x);
    }
    assert forall|x: int| #[trigger] parse_string(s, x) is Some implies 0 <= x && x
        < (parse_string(s, x)->0).1 <= s.len() by {
        lemma_parse_string_bounds(s, x);
    }
    assert forall|
        x: int,
        key: Seq<char>,
        a: Option<Seq<char>>,
        b: Option<Seq<char>>,
        d: Option<Seq<char>>,
    |
        #[trigger] header_member_value(s, x, key, a, b, d) is Some implies 0 <= x && x
        < (header_member_value(s, x, key, a, b, d)->0).1 <= s.len() by {
        lemma_header_member_value_bounds(s, x, key, a, b, d);
    }
}

/// Header-member-loop bounds: a successful parse advances.
proof fn lemma_parse_header_members_bounds(
    s: Seq<char>,
    i: int,
    id: Option<Seq<char>>,
    from: Option<Seq<char>>,
    subject: Option<Seq<char>>,
)
    ensures
        parse_header_members(s, i, id, from, subject) matches Some(p) ==> 0 <= i && i < p.1
            <= s.len(),
    decreases s.len() - i,
{
    lemma_parse_string_bounds(s, i);
    if let Some(k) = parse_string(s, i) {
        lemma_skip_ws(s, k.1);
        let c: int = skip_ws(s, k.1);
        if c < s.len() && s[c] == ':' {
            lemma_skip_ws(s, c + 1);
            lemma_header_member_value_bounds(s, skip_ws(s, c + 1), k.0, id, from, subject);
            if let Some(q) = header_member_value(s, skip_ws(s, c + 1), k.0, id, from, subject) {
                lemma_skip_ws(s, q.1);
                let m: int = skip_ws(s, q.1);
                if m < s.len() && s[m] == ',' {
                    lemma_skip_ws(s, m + 1);
                    lemma_parse_header_members_bounds(s, skip_ws(s, m + 1), q.0.0, q.0.1, q.0.2);
                }
            }
        }
    }
}

/// One mail header object at position `i`: its members in any order,
/// with `messageID`, `from` and `subject` present exactly once.
pub open spec fn parse_header(s: Seq<char>, i: int) -> Option<(crate::MailHeaderView, int)> {
    if 0 <= i < s.len() && s[i] == '{' {
        parse_header_members(s, skip_ws(s, i + 1), None, None, None)
    } else {
        None
    }
}

/// A successful `parse_header` advances and stays within the input.
proof fn lemma_parse_header_bounds(s: Seq<char>, i: int)
    ensures
        parse_header(s, i) matches Some(p) ==> 0 <= i && i < p.1 <= s.len(),
{
    if 0 <= i < s.len() && s[i] == '{' {
        lemma_skip_ws(s, i + 1);
        lemma_parse_header_members_bounds(s, skip_ws(s, i + 1), None, None, None);
    }
}

/// One or more comma-separated mail header objects, ended by a closing
/// bracket.
pub open spec fn parse_header_items(s: Seq<char>, i: int) -> Option<
    (Seq<crate::MailHeaderView>, int),
>
    decreases s.len() - i,
    via parse_header_items_decreases
{
    match parse_header(s, i) {
        None => None,
        Some(p) => {
            let k: int = skip_ws(s, p.1);
            if k < s.len() && s[k] == ',' {
                match parse_header_items(s, skip_ws(s, k + 1)) {
                    None => None,
                    Some(q) => Some((seq![p.0] + q.0, q.1)),
                }
            } else if k < s.len() && s[k] == ']' {
                Some((seq![p.0], k + 1))
            } else {
                None
            }
        },
    }
}

#[via_fn]
proof fn parse_header_items_decreases(s: Seq<char>, i: int) {
    lemma_parse_header_bounds(s, i);
    if let Some(p) = parse_header(s, i) {
        lemma_skip_ws(s, p.1);
        let k: int = skip_ws(s, p.1);
        if k < s.len() && s[k] == ',' {
            lemma_skip_ws(s, k + 1);
        }
    }
}

/// Header-item-list bounds: a successful parse advances.
proof fn lemma_parse_header_items_bounds(s: Seq<char>, i: int)
    ensures
        parse_header_items(s, i) matches Some(p) ==> 0 <= i && i < p.1 <= s.len(),
    decreases s.len() - i,
{
    lemma_parse_header_bounds(s, i);
    if let Some(p) = parse_header(s, i) {
        lemma_skip_ws(s, p.1);
        let k: int = skip_ws(s, p.1);
        if k < s.len() && s[k] == ',' {
            lemma_skip_ws(s, k + 1);
            lemma_parse_header_items_bounds(s, skip_ws(s, k + 1));
        }
    }
}

/// A JSON array of mail header objects.
pub open spec fn parse_header_array(s: Seq<char>, i: int) -> Option<
    (Seq<crate::MailHeaderView>, int),
> {
    if 0 <= i < s.len() && s[i] == '[' {
        let k: int = skip_ws(s, i + 1);
        if k < s.len() && s[k] == ']' {
            Some((Seq::empty(), k + 1))
        } else {
            parse_header_items(s, k)
        }
    } else {
        None
    }
}

/// Header-array bounds: a successful parse advances.
proof fn lemma_parse_header_array_bounds(s: Seq<char>, i: int)
    ensures
        parse_header_array(s, i) matches Some(p) ==> 0 <= i && i < p.1 <= s.len(),
{
    if 0 <= i < s.len() && s[i] == '[' {
        lemma_skip_ws(s, i + 1);
        lemma_parse_header_items_bounds(s, skip_ws(s, i + 1));
    }
}

/// One generation-response member's value at `i`, dispatched on the
/// (decoded) key: `email` must hold a string array and must not repeat;
/// any other member's value is skipped unread.
pub open spec fn gen_member_value(
    s: Seq<char>,
    i: int,
    key: Seq<char>,
    found: Option<Seq<Seq<char>>>,
) -> Option<(Option<Seq<Seq<char>>>, int)> {
    if key == "email"@ {
        if found is Some {
            None
        } else {
            match parse_string_array(s, i) {
                Some(p) => Some((Some(p.0), p.1)),
                None => None,
            }
        }
    } else {
        match skip_value(s, i) {
            Some(j) => Some((found, j)),
            None => None,
        }
    }
}

/// Generation-member-value bounds: a successful parse advances.
proof fn lemma_gen_member_value_bounds(
    s: Seq<char>,
    i: int,
    key: Seq<char>,
    found: Option<Seq<Seq<char>>>,
)
    ensures
        gen_member_value(s, i, key, found) matches Some(q) ==> 0 <= i && i < q.1 <= s.len(),
{
    lemma_parse_string_array_bounds(s, i);
    lemma_skip_value_bounds(s, i);
}

/// The members of the generation response object, in any order: `email`
/// must appear exactly once, holding the address array; every other
/// member is skipped. Ends just past the closing brace.
pub open spec fn gen_members(s: Seq<char>, i: int, found: Option<Seq<Seq<char>>>) -> Option<
    (Seq<Seq<char>>, int),
>
    decreases s.len() - i,
    via gen_members_decreases
{
    match parse_string(s, i) {
        None => None,
        Some(k) => {
            let c: int = skip_ws(s, k.1);
            if c < s.len() && s[c] == ':' {
                match gen_member_value(s, skip_ws(s, c + 1), k.0, found) {
                    None => None,
                    Some(q) => {
                        let m: int = skip_ws(s, q.1);
                        if m < s.len() && s[m] == ',' {
                            gen_members(s, skip_ws(s, m + 1), q.0)
                        } else if m < s.len() && s[m] == '}' {
                            match q.0 {
                                Some(emails) => Some((emails, m + 1)),
                                None => None,
                            }
                        } else {
                            None
                        }
                    },
                }
            } else {
                None
            }
        },
    }
}

#[via_fn]
proof fn gen_members_decreases(s: Seq<char>, i: int, found: Option<Seq<Seq<char>>>) {
    assert forall|x: int| 0 <= x implies x <= #[trigger] skip_ws(s, x) && (x <= s.len()
        ==> skip_ws(s, x) <= s.len()) by {
        lemma_skip_ws(s, x);
    }
    assert forall|x: int| #[trigger] parse_string(s, x) is Some implies 0 <= x && x
        < (parse_string(s, x)->0).1 <= s.len() by {
        lemma_parse_string_bounds(s, x);
    }
    assert forall|x: int, key: Seq<char>, f: Option<Seq<Seq<char>>>|
        #[trigger] gen_member_value(s, x, key, f) is Some implies 0 <= x && x < (gen_member_value(s, x, key, f)->0).1 <= s.len() by {
        lemma_gen_member_value_bounds(s, x, key, f);
    }
}

/// One inbox-response member's value at `i`, dispatched on the (decoded)
/// key: `messageData` must hold a header array and must not repeat; any
/// other member's value is skipped unread.
pub open spec fn inbox_member_value(
    s: Seq<char>,
    i: int,
    key: Seq<char>,
    found: Option<Seq<crate::MailHeaderView>>,
) -> Option<(Option<Seq<crate::MailHeaderView>>, int)> {
    if key == "messageData"@ {
        if found is Some {
            None
        } else {
            match parse_header_array(s, i) {
                Some(p) => Some((Some(p.0), p.1)),
                None => None,
            }
        }
    } else {
        match skip_value(s, i) {
            Some(j) => Some((found, j)),
            None => None,
        }
    }
}

/// Inbox-member-value bounds: a successful parse advances.
proof fn lemma_inbox_member_value_bounds(
    s: Seq<char>,
    i: int,
    key: Seq<char>,
    found: Option<Seq<crate::MailHeaderView>>,
)
    ensures
        inbox_member_value(s, i, key, found) matches Some(q) ==> 0 <= i && i < q.1 <= s.len(),
{
    lemma_parse_header_array_bounds(s, i);
    lemma_skip_value_bounds(s, i);
}

/// The members of the inbox response object, in any order:
/// `messageData` must appear exactly once, holding the header array;
/// every other member is skipped. Ends just past the closing brace.
pub open spec fn inbox_members(
    s: Seq<char>,
    i: int,
    found: Option<Seq<crate::MailHeaderView>>,
) -> Option<(Seq<crate::MailHeaderView>, int)>
    decreases s.len() - i,
    via inbox_members_decreases
{
    match parse_string(s, i) {
        None => None,
        Some(k) => {
            let c: int = skip_ws(s, k.1);
            if c < s.len() && s[c] == ':' {
                match inbox_member_value(s, skip_ws(s, c + 1), k.0, found) {
                    None => None,
                    Some(q) => {
                        let m: int = skip_ws(s, q.1);
                        if m < s.len() && s[m] == ',' {
                            inbox_members(s, skip_ws(s, m + 1), q.0)
                        } else if m < s.len() && s[m] == '}' {
                            match q.0 {
                                Some(headers) => Some((headers, m + 1)),
                                None => None,
                            }
                        } else {
                            None
                        }
                    },
                }
            } else {
                None
            }
        },
    }
}

#[via_fn]
proof fn inbox_members_decreases(
    s: Seq<char>,
    i: int,
    found: Option<Seq<crate::MailHeaderView>>,
) {
    assert forall|x: int| 0 <= x implies x <= #[trigger] skip_ws(s, x) && (x <= s.len()
        ==> skip_ws(s, x) <= s.len()) by {
        lemma_skip_ws(s, x);
    }
    assert forall|x: int| #[trigger] parse_string(s, x) is Some implies 0 <= x && x
        < (parse_string(s, x)->0).1 <= s.len() by {
        lemma_parse_string_bounds(s, x);
    }
    assert forall|x: int, key: Seq<char>, f: Option<Seq<crate::MailHeaderView>>|
        #[trigger] inbox_member_value(s, x, key, f) is Some implies 0 <= x && x
        < (inbox_member_value(s, x, key, f)->0).1 <= s.len() by {
        lemma_inbox_member_value_bounds(s, x, key, f);
    }
}

/// The generation endpoint's response shape: one object holding, among
/// any members, exactly one `email` member with an array of strings,
/// with nothing but whitespace around the object.
pub open spec fn gen_response(s: Seq<char>) -> Option<Seq<Seq<char>>> {
    let i: int = skip_ws(s, 0);
    if i < s.len() && s[i] == '{' {
        match gen_members(s, skip_ws(s, i + 1), None) {
            None => None,
            Some(p) => if skip_ws(s, p.1) == s.len() {
                Some(p.0)
            } else {
                None
            },
        }
    } else {
        None
    }
}

/// The inbox endpoint's response shape: one object holding, among any
/// members, exactly one `messageData` member with an array of mail
/// header objects, with nothing but whitespace around the object.
pub open spec fn inbox_response(s: Seq<char>) -> Option<Seq<crate::MailHeaderView>> {
    let i: int = skip_ws(s, 0);
    if i < s.len() && s[i] == '{' {
        match inbox_members(s, skip_ws(s, i + 1), None) {
            None => None,
            Some(p) => if skip_ws(s, p.1) == s.len() {
                Some(p.0)
            } else {
                None
            },
        }
    } else {
        None
    }
}

/// Whether `c` is JSON whitespace, executably.
fn is_ws_exec(c: char) -> (r: bool)
    ensures
        r == is_ws(c),
{
    c == ' ' || c == '\n' || c == '\t' || c == '\r'
}

/// Skips whitespace from position `i` on.
fn skip_ws_exec(s: &str, i: usize) -> (r: usize)
    requires
        i <= s@.len(),
    ensures
        r as int == skip_ws(s@, i as int),
        i <= r <= s@.len(),
{
    let n = s.unicode_len();
    let mut cur = i;
    while cur < n && is_ws_exec(s.get_char(cur))
        invariant
            i <= cur <= n,
            n == s@.len(),
            skip_ws(s@, i as int) == skip_ws(s@, cur as int),
        decreases n - cur,
    {
        proof {
            assert(skip_ws(s@, cur as int) == skip_ws(s@, cur as int + 1));
        }
        cur += 1;
    }
    proof {
        assert(skip_ws(s@, cur as int) == cur as int);
    }
    cur
}

/// The character a short JSON escape stands for, executably.
fn unescape_exec(c: char) -> (r: Option<char>)
    ensures
        r == unescape(c),
{
    if c == '"' {
        Some('"')
    } else if c == '\\' {
        Some('\\')
    } else if c == '/' {
        Some('/')
    } else if c == 'n' {
        Some('\n')
    } else if c == 't' {
        Some('\t')
    } else if c == 'r' {
        Some('\r')
    } else if c == 'b' {
        Some('\u{0008}')
    } else if c == 'f' {
        Some('\u{000C}')
    } else {
        None
    }
}

/// The value of a hexadecimal digit character, executably.
fn hex_val_exec(c: char) -> (r: Option<u32>)
    ensures
        r == hex_val(c),
        r matches Some(v) ==> v < 16,
{
    let u = c as u32;
    if 0x30 <= u && u <= 0x39 {
        Some(u - 0x30)
    } else if 0x41 <= u && u <= 0x46 {
        Some(u - 0x37)
    } else if 0x61 <= u && u <= 0x66 {
        Some(u - 0x57)
    } else {
        None
    }
}

/// Relies on `char::from_u32`: the character with scalar value `u`;
/// `None` exactly for surrogates and values beyond the scalar range.
#[verifier::external_body]
fn char_from_u32(u: u32) -> (r: Option<char>)
    ensures
        (match r {
            Some(c) => c as u32 == u,
            None => !(u < 0xD800 || (0xE000 <= u && u <= 0x10FFFF)),
        }),
{
    char::from_u32(u)
}

/// Reads a JSON string literal at position `i`.
fn parse_string_exec(s: &str, i: usize) -> (r: Option<(String, usize)>)
    requires
        i <= s@.len(),
    ensures
        (match r {
            Some(p) => parse_string(s@, i as int) == Some((p.0@, p.1 as int)) && i < p.1
                && p.1 <= s@.len(),
            None => parse_string(s@, i as int) is None,
        }),
{
    let n = s.unicode_len();
    if i >= n || s.get_char(i) != '"' {
        return None;
    }
    let start = i + 1;
    let mut cur = start;
    let mut acc = String::new();
    proof {
        if let Some(p) = parse_chars(s@, start as int) {
            assert(acc@ + p.0 =~= p.0);
        }
    }
    while cur < n
        invariant
            start <= cur <= n,
            n == s@.len(),
            start == i + 1,
            i < n,
            s@[i as int] == '"',
            (match parse_chars(s@, cur as int) {
                Some(q) => parse_chars(s@, start as int) == Some((acc@ + q.0, q.1)),
                None => parse_chars(s@, start as int) is None,
            }),
        decreases n - cur,
    {
        let c = s.get_char(cur);
        if c == '"' {
            proof {
                assert(parse_chars(s@, cur as int) == Some((Seq::<char>::empty(), cur as int
                    + 1)));
                assert(acc@ + Seq::<char>::empty() =~= acc@);
            }
            return Some((acc, cur + 1));
        } else if c == '\\' {
            if cur + 1 >= n {
                proof {
                    assert(parse_chars(s@, cur as int) is None);
                }
                return None;
            }
            let e = s.get_char(cur + 1);
            if e == 'u' {
                if n - cur < 6 {
                    proof {
                        assert(parse_chars(s@, cur as int) is None);
                    }
                    return None;
                }
                let h1 = hex_val_exec(s.get_char(cur + 2));
                let h2 = hex_val_exec(s.get_char(cur + 3));
                let h3 = hex_val_exec(s.get_char(cur + 4));
                let h4 = hex_val_exec(s.get_char(cur + 5));
                match (h1, h2, h3, h4) {
                    (Some(a), Some(b), Some(cc), Some(d)) => {
                        let code: u32 = a * 4096 + b * 256 + cc * 16 + d;
                        proof {
                            assert(hex4(s@, cur as int + 2) == Some(code));
                        }
                        if code < 0xD800 || 0xDFFF < code {
                            match char_from_u32(code) {
                                Some(u) => {
                                    proof {
                                        vstd::utf8::char_u32_cast(u, code);
                                    }
                                    let ghost before = acc@;
                                    push_char(&mut acc, u);
                                    proof {
                                        if let Some(q) = parse_chars(s@, cur as int + 6) {
                                            assert(parse_chars(s@, cur as int) == Some(
                                                (seq![u] + q.0, q.1),
                                            ));
                                            assert(before + (seq![u] + q.0) =~= acc@ + q.0);
                                        } else {
                                            assert(parse_chars(s@, cur as int) is None);
                                        }
                                    }
                                    cur += 6;
                                },
                                None => {
                                    proof {
                                        assert(false);
                                    }
                                    return None;
                                },
                            }
                        } else {
                            proof {
                                assert(parse_chars(s@, cur as int) is None);
                            }
                            return None;
                        }
                    },
                    _ => {
                        proof {
                            assert(hex4(s@, cur as int + 2) is None);
                            assert(parse_chars(s@, cur as int) is None);
                        }
                        return None;
                    },
                }
                continue;
            }
            match unescape_exec(e) {
                None => {
                    proof {
                        assert(parse_chars(s@, cur as int) is None);
                    }
                    return None;
                },
                Some(u) => {
                    let ghost before = acc@;
                    push_char(&mut acc, u);
                    proof {
                        if let Some(q) = parse_chars(s@, cur as int + 2) {
                            assert(parse_chars(s@, cur as int) == Some((seq![u] + q.0, q.1)));
                            assert(before + (seq![u] + q.0) =~= acc@ + q.0);
                        } else {
                            assert(parse_chars(s@, cur as int) is None);
                        }
                    }
                    cur += 2;
                },
            }
        } else {
            let cv = c as u32;
            if cv < 0x20 {
                proof {
                    assert(parse_chars(s@, cur as int) is None);
                }
                return None;
            }
            let ghost before = acc@;
            push_char(&mut acc, c);
            proof {
                if let Some(q) = parse_chars(s@, cur as int + 1) {
                    assert(parse_chars(s@, cur as int) == Some((seq![c] + q.0, q.1)));
                    assert(before + (seq![c] + q.0) =~= acc@ + q.0);
                } else {
                    assert(parse_chars(s@, cur as int) is None);
                }
            }
            cur += 1;
        }
    }
    proof {
        assert(parse_chars(s@, cur as int) is None);
    }
    None
}

/// Whether two strings hold the same characters.
fn str_eq(a: &str, b: &str) -> (r: bool)
    ensures
        r == (a@ == b@),
{
    let n = a.unicode_len();
    let m = b.unicode_len();
    if n != m {
        return false;
    }
    let mut i: usize = 0;
    while i < n
        invariant
            0 <= i <= n,
            n == a@.len(),
            n == b@.len(),
            forall|k: int| 0 <= k < i ==> a@[k] == b@[k],
        decreases n - i,
    {
        if a.get_char(i) != b.get_char(i) {
            return false;
        }
        i += 1;
    }
    proof {
        assert(a@ =~= b@);
    }
    true
}

/// Whether `c` can appear in a JSON scalar token, executably.
fn is_scalar_char_exec(c: char) -> (r: bool)
    ensures
        r == is_scalar_char(c),
{
    let u = c as u32;
    (0x30 <= u && u <= 0x39) || c == '-' || c == '+' || c == '.' || c == 'E' || (0x61 <= u && u
        <= 0x7A)
}

/// Skips a JSON scalar token at position `i`.
fn skip_scalar_exec(s: &str, i: usize) -> (r: Option<usize>)
    requires
        i <= s@.len(),
    ensures
        (match r {
            Some(j) => skip_scalar(s@, i as int) == Some(j as int) && i < j <= s@.len(),
            None => skip_scalar(s@, i as int) is None,
        }),
    decreases s@.len() - i@,
{
    let n = s.unicode_len();
    if i >= n || !is_scalar_char_exec(s.get_char(i)) {
        return None;
    }
    if i + 1 < n && is_scalar_char_exec(s.get_char(i + 1)) {
        skip_scalar_exec(s, i + 1)
    } else {
        Some(i + 1)
    }
}

/// Skips one JSON value at position `i`.
fn skip_value_exec(s: &str, i: usize) -> (r: Option<usize>)
    requires
        i <= s@.len(),
    ensures
        (match r {
            Some(j) => skip_value(s@, i as int) == Some(j as int) && i < j <= s@.len(),
            None => skip_value(s@, i as int) is None,
        }),
    decreases s@.len() - i@, 0int,
{
    let n = s.unicode_len();
    if i >= n {
        return None;
    }
    let c = s.get_char(i);
    if c == '"' {
        match parse_string_exec(s, i) {
            Some((_v, j)) => Some(j),
            None => None,
        }
    } else if c == '[' {
        let k = skip_ws_exec(s, i + 1);
        if k < n && s.get_char(k) == ']' {
            Some(k + 1)
        } else {
            skip_items_exec(s, k)
        }
    } else if c == '{' {
        let k = skip_ws_exec(s, i + 1);
        if k < n && s.get_char(k) == '}' {
            Some(k + 1)
        } else {
            skip_members_exec(s, k)
        }
    } else {
        skip_scalar_exec(s, i)
    }
}

/// Skips the elements of a JSON array up to its closing bracket.
fn skip_items_exec(s: &str, i: usize) -> (r: Option<usize>)
    requires
        i <= s@.len(),
    ensures
        (match r {
            Some(j) => skip_items(s@, i as int) == Some(j as int) && i < j <= s@.len(),
            None => skip_items(s@, i as int) is None,
        }),
    decreases s@.len() - i@, 1int,
{
    match skip_value_exec(s, i) {
        None => None,
        Some(j) => {
            let m = skip_ws_exec(s, j);
            let n = s.unicode_len();
            if m < n && s.get_char(m) == ',' {
                let k2 = skip_ws_exec(s, m + 1);
                skip_items_exec(s, k2)
            } else if m < n && s.get_char(m) == ']' {
                Some(m + 1)
            } else {
                None
            }
        },
    }
}

/// Skips the members of a JSON object up to its closing brace.
fn skip_members_exec(s: &str, i: usize) -> (r: Option<usize>)
    requires
        i <= s@.len(),
    ensures
        (match r {
            Some(j) => skip_members(s@, i as int) == Some(j as int) && i < j <= s@.len(),
            None => skip_members(s@, i as int) is None,
        }),
    decreases s@.len() - i@, 1int,
{
    match parse_string_exec(s, i) {
        None => None,
        Some((_key, j1)) => {
            let c = skip_ws_exec(s, j1);
            let n = s.unicode_len();
            if c < n && s.get_char(c) == ':' {
                let v = skip_ws_exec(s, c + 1);
                match skip_value_exec(s, v) {
                    None => None,
                    Some(j) => {
                        let m = skip_ws_exec(s, j);
                        if m < n && s.get_char(m) == ',' {
                            let k2 = skip_ws_exec(s, m + 1);
                            skip_members_exec(s, k2)
                        } else if m < n && s.get_char(m) == '}' {
                            Some(m + 1)
                        } else {
                            None
                        }
                    },
                }
            } else {
                None
            }
        },
    }
}

/// The view of an optional owned string.
pub open spec fn opt_str_view(o: Option<String>) -> Option<Seq<char>> {
    match o {
        Some(t) => Some(t@),
        None => None,
    }
}

/// Reads the members of a mail header object, in any order, from the
/// first member on.
fn parse_header_members_exec(
    s: &str,
    i: usize,
    id: Option<String>,
    from: Option<String>,
    subject: Option<String>,
) -> (r: Option<(crate::MailHeader, usize)>)
    requires
        i <= s@.len(),
    ensures
        (match r {
            Some(p) => parse_header_members(
                s@,
                i as int,
                opt_str_view(id),
                opt_str_view(from),
                opt_str_view(subject),
            ) == Some((p.0@, p.1 as int)) && i < p.1 <= s@.len(),
            None => parse_header_members(
                s@,
                i as int,
                opt_str_view(id),
                opt_str_view(from),
                opt_str_view(subject),
            ) is None,
        }),
    decreases s@.len() - i@,
{
    match parse_string_exec(s, i) {
        None => None,
        Some((key, j1)) => {
            let c = skip_ws_exec(s, j1);
            let n = s.unicode_len();
            if c < n && s.get_char(c) == ':' {
                let v = skip_ws_exec(s, c + 1);
                let step = if str_eq(key.as_str(), "messageID") {
                    if id.is_some() {
                        None
                    } else {
                        match parse_string_exec(s, v) {
                            Some((val, j2)) => Some(((Some(val), from, subject), j2)),
                            None => None,
                        }
                    }
                } else if str_eq(key.as_str(), "from") {
                    if from.is_some() {
                        None
                    } else {
                        match parse_string_exec(s, v) {
                            Some((val, j2)) => Some(((id, Some(val), subject), j2)),
                            None => None,
                        }
                    }
                } else if str_eq(key.as_str(), "subject") {
                    if subject.is_some() {
                        None
                    } else {
                        match parse_string_exec(s, v) {
                            Some((val, j2)) => Some(((id, from, Some(val)), j2)),
                            None => None,
                        }
                    }
                } else {
                    match skip_value_exec(s, v) {
                        Some(j2) => Some(((id, from, subject), j2)),
                        None => None,
                    }
                };
                match step {
                    None => None,
                    Some((slots, j2)) => {
                        let m = skip_ws_exec(s, j2);
                        if m < n && s.get_char(m) == ',' {
                            let k2 = skip_ws_exec(s, m + 1);
                            parse_header_members_exec(s, k2, slots.0, slots.1, slots.2)
                        } else if m < n && s.get_char(m) == '}' {
                            match (slots.0, slots.1, slots.2) {
                                (Some(a), Some(b), Some(d)) => Some(
                                    (crate::MailHeader { id: a, from: b, subject: d }, m + 1),
                                ),
                                _ => None,
                            }
                        } else {
                            None
                        }
                    },
                }
            } else {
                None
            }
        },
    }
}

/// Reads comma-separated JSON strings up to a closing bracket.
fn parse_string_items_exec(s: &str, i: usize) -> (r: Option<(Vec<String>, usize)>)
    requires
        i <= s@.len(),
    ensures
        (match r {
            Some(p) => parse_string_items(s@, i as int) == Some((p.0.deep_view(), p.1 as int))
                && i < p.1 && p.1 <= s@.len(),
            None => parse_string_items(s@, i as int) is None,
        }),
    decreases s@.len() - i@,
{
    match parse_string_exec(s, i) {
        None => None,
        Some((v, j)) => {
            let k = skip_ws_exec(s, j);
            let n = s.unicode_len();
            if k < n && s.get_char(k) == ',' {
                let k2 = skip_ws_exec(s, k + 1);
                match parse_string_items_exec(s, k2) {
                    None => None,
                    Some((vs, fin)) => {
                        let ghost tail = vs.deep_view();
                        let mut vs2 = vs;
                        vs2.insert(0, v);
                        proof {
                            assert(vs2.deep_view() =~~= seq![v@] + tail);
                        }
                        Some((vs2, fin))
                    },
                }
            } else if k < n && s.get_char(k) == ']' {
                let mut vs: Vec<String> = Vec::new();
                vs.push(v);
                proof {
                    assert(vs.deep_view() =~~= seq![v@]);
                }
                Some((vs, k + 1))
            } else {
                None
            }
        },
    }
}

/// Reads a JSON array of strings at position `i`.
fn parse_string_array_exec(s: &str, i: usize) -> (r: Option<(Vec<String>, usize)>)
    requires
        i <= s@.len(),
    ensures
        (match r {
            Some(p) => parse_string_array(s@, i as int) == Some((p.0.deep_view(), p.1 as int))
                && i < p.1 && p.1 <= s@.len(),
            None => parse_string_array(s@, i as int) is None,
        }),
{
    let n = s.unicode_len();
    if i < n && s.get_char(i) == '[' {
        let k = skip_ws_exec(s, i + 1);
        if k < n && s.get_char(k) == ']' {
            let vs: Vec<String> = Vec::new();
            proof {
                assert(vs.deep_view() =~~= Seq::<Seq<char>>::empty());
            }
            Some((vs, k + 1))
        } else {
            parse_string_items_exec(s, k)
        }
    } else {
        None
    }
}

/// Reads one mail header object at position `i`.
fn parse_header_exec(s: &str, i: usize) -> (r: Option<(crate::MailHeader, usize)>)
    requires
        i <= s@.len(),
    ensures
        (match r {
            Some(p) => parse_header(s@, i as int) == Some((p.0@, p.1 as int)) && i < p.1
                && p.1 <= s@.len(),
            None => parse_header(s@, i as int) is None,
        }),
{
    let n = s.unicode_len();
    if i >= n || s.get_char(i) != '{' {
        return None;
    }
    let k = skip_ws_exec(s, i + 1);
    parse_header_members_exec(s, k, None, None, None)
}

/// Reads comma-separated mail header objects up to a closing bracket.
fn parse_header_items_exec(s: &str, i: usize) -> (r: Option<(Vec<crate::MailHeader>, usize)>)
    requires
        i <= s@.len(),
    ensures
        (match r {
            Some(p) => parse_header_items(s@, i as int) == Some((p.0.deep_view(), p.1 as int))
                && i < p.1 && p.1 <= s@.len(),
            None => parse_header_items(s@, i as int) is None,
        }),
    decreases s@.len() - i@,
{
    match parse_header_exec(s, i) {
        None => None,
        Some((v, j)) => {
            let k = skip_ws_exec(s, j);
            let n = s.unicode_len();
            if k < n && s.get_char(k) == ',' {
                let k2 = skip_ws_exec(s, k + 1);
                match parse_header_items_exec(s, k2) {
                    None => None,
                    Some((vs, fin)) => {
                        let ghost tail = vs.deep_view();
                        let ghost hv = v@;
                        let mut vs2 = vs;
                        vs2.insert(0, v);
                        proof {
                            assert(vs2.deep_view() =~~= seq![hv] + tail);
                        }
                        Some((vs2, fin))
                    },
                }
            } else if k < n && s.get_char(k) == ']' {
                let ghost hv = v@;
                let mut vs: Vec<crate::MailHeader> = Vec::new();
                vs.push(v);
                proof {
                    assert(vs.deep_view() =~~= seq![hv]);
                }
                Some((vs, k + 1))
            } else {
                None
            }
        },
    }
}

/// Reads a JSON array of mail header objects at position `i`.
fn parse_header_array_exec(s: &str, i: usize) -> (r: Option<(Vec<crate::MailHeader>, usize)>)
    requires
        i <= s@.len(),
    ensures
        (match r {
            Some(p) => parse_header_array(s@, i as int) == Some((p.0.deep_view(), p.1 as int))
                && i < p.1 && p.1 <= s@.len(),
            None => parse_header_array(s@, i as int) is None,
        }),
{
    let n = s.unicode_len();
    if i < n && s.get_char(i) == '[' {
        let k = skip_ws_exec(s, i + 1);
        if k < n && s.get_char(k) == ']' {
            let vs: Vec<crate::MailHeader> = Vec::new();
            proof {
                assert(vs.deep_view() =~~= Seq::<crate::MailHeaderView>::empty());
            }
            Some((vs, k + 1))
        } else {
            parse_header_items_exec(s, k)
        }
    } else {
        None
    }
}

/// The deep view of an optional vector of strings.
pub open spec fn opt_emails_view(o: Option<Vec<String>>) -> Option<Seq<Seq<char>>> {
    match o {
        Some(v) => Some(v.deep_view()),
        None => None,
    }
}

/// The deep view of an optional vector of mail headers.
pub open spec fn opt_headers_view(o: Option<Vec<crate::MailHeader>>) -> Option<
    Seq<crate::MailHeaderView>,
> {
    match o {
        Some(v) => Some(v.deep_view()),
        None => None,
    }
}

/// Reads the members of the generation response object, in any order,
/// from the first member on.
fn gen_members_exec(s: &str, i: usize, found: Option<Vec<String>>) -> (r: Option<
    (Vec<String>, usize),
>)
    requires
        i <= s@.len(),
    ensures
        (match r {
            Some(p) => gen_members(s@, i as int, opt_emails_view(found)) == Some(
                (p.0.deep_view(), p.1 as int),
            ) && i < p.1 <= s@.len(),
            None => gen_members(s@, i as int, opt_emails_view(found)) is None,
        }),
    decreases s@.len() - i@,
{
    match parse_string_exec(s, i) {
        None => None,
        Some((key, j1)) => {
            let c = skip_ws_exec(s, j1);
            let n = s.unicode_len();
            if c < n && s.get_char(c) == ':' {
                let v = skip_ws_exec(s, c + 1);
                let step = if str_eq(key.as_str(), "email") {
                    if found.is_some() {
                        None
                    } else {
                        match parse_string_array_exec(s, v) {
                            Some((vs, j2)) => Some((Some(vs), j2)),
                            None => None,
                        }
                    }
                } else {
                    match skip_value_exec(s, v) {
                        Some(j2) => Some((found, j2)),
                        None => None,
                    }
                };
                match step {
                    None => None,
                    Some((slot, j2)) => {
                        let m = skip_ws_exec(s, j2);
                        if m < n && s.get_char(m) == ',' {
                            let k2 = skip_ws_exec(s, m + 1);
                            gen_members_exec(s, k2, slot)
                        } else if m < n && s.get_char(m) == '}' {
                            match slot {
                                Some(vs) => Some((vs, m + 1)),
                                None => None,
                            }
                        } else {
                            None
                        }
                    },
                }
            } else {
                None
            }
        },
    }
}

/// Reads the members of the inbox response object, in any order, from
/// the first member on.
fn inbox_members_exec(s: &str, i: usize, found: Option<Vec<crate::MailHeader>>) -> (r: Option<
    (Vec<crate::MailHeader>, usize),
>)
    requires
        i <= s@.len(),
    ensures
        (match r {
            Some(p) => inbox_members(s@, i as int, opt_headers_view(found)) == Some(
                (p.0.deep_view(), p.1 as int),
            ) && i < p.1 <= s@.len(),
            None => inbox_members(s@, i as int, opt_headers_view(found)) is None,
        }),
    decreases s@.len() - i@,
{
    match parse_string_exec(s, i) {
        None => None,
        Some((key, j1)) => {
            let c = skip_ws_exec(s, j1);
            let n = s.unicode_len();
            if c < n && s.get_char(c) == ':' {
                let v = skip_ws_exec(s, c + 1);
                let step = if str_eq(key.as_str(), "messageData") {
                    if found.is_some() {
                        None
                    } else {
                        match parse_header_array_exec(s, v) {
                            Some((vs, j2)) => Some((Some(vs), j2)),
                            None => None,
                        }
                    }
                } else {
                    match skip_value_exec(s, v) {
                        Some(j2) => Some((found, j2)),
                        None => None,
                    }
                };
                match step {
                    None => None,
                    Some((slot, j2)) => {
                        let m = skip_ws_exec(s, j2);
                        if m < n && s.get_char(m) == ',' {
                            let k2 = skip_ws_exec(s, m + 1);
                            inbox_members_exec(s, k2, slot)
                        } else if m < n && s.get_char(m) == '}' {
                            match slot {
                                Some(vs) => Some((vs, m + 1)),
                                None => None,
                            }
                        } else {
                            None
                        }
                    },
                }
            } else {
                None
            }
        },
    }
}

/// Decodes the generation endpoint's response — an object holding,
/// among any members, exactly one `email` member with the generated
/// addresses — yielding them in returned order.
pub fn parse_generated_emails(s: &str) -> (r: Option<Vec<String>>)
    ensures
        (match r {
            Some(v) => gen_response(s@) == Some(v.deep_view()),
            None => gen_response(s@) is None,
        }),
{
    let i = skip_ws_exec(s, 0);
    let n = s.unicode_len();
    if i >= n || s.get_char(i) != '{' {
        return None;
    }
    let k = skip_ws_exec(s, i + 1);
    match gen_members_exec(s, k, None) {
        None => None,
        Some((vs, j)) => {
            let fin = skip_ws_exec(s, j);
            if fin == n {
                Some(vs)
            } else {
                None
            }
        },
    }
}

/// Decodes the inbox endpoint's response — an object holding, among any
/// members, exactly one `messageData` member with the mail headers —
/// yielding them in returned order.
pub fn parse_inbox_headers(s: &str) -> (r: Option<Vec<crate::MailHeader>>)
    ensures
        (match r {
            Some(v) => inbox_response(s@) == Some(v.deep_view()),
            None => inbox_response(s@) is None,
        }),
{
    let i = skip_ws_exec(s, 0);
    let n = s.unicode_len();
    if i >= n || s.get_char(i) != '{' {
        return None;
    }
    let k = skip_ws_exec(s, i + 1);
    match inbox_members_exec(s, k, None) {
        None => None,
        Some((vs, j)) => {
            let fin = skip_ws_exec(s, j);
            if fin == n {
                Some(vs)
            } else {
                None
            }
        },
    }
}

// ---------------------------------------------------------------------------
// Encoding and parsing agree on string literals.
// ---------------------------------------------------------------------------

/// The hexadecimal digit characters name their values.
proof fn lemma_hex_char_val(x: nat)
    requires
        x < 16,
    ensures
        hex_val(hex_char(x)) == Some(x as u32),
{
}

/// Parsing undoes escaping, one literal at a time: just past position `i`
/// the escaped text of `s` stands in `full`, closed by a quote, and
/// `parse_chars` reads back exactly `s` and stops just past that quote.
proof fn lemma_parse_chars_encode(full: Seq<char>, i: int, s: Seq<char>)
    requires
        0 <= i,
        i + json_escaped(s).len() + 1 <= full.len(),
        full.subrange(i, i + json_escaped(s).len() as int + 1) == json_escaped(s) + seq!['"'],
    ensures
        parse_chars(full, i) == Some((s, i + json_escaped(s).len() + 1)),
    decreases s.len(),
{
    let le = json_escaped(s).len() as int;
    let whole = json_escaped(s) + seq!['"'];
    assert forall|t: int| 0 <= t < le + 1 implies #[trigger] full[i + t] == whole[t] by {
        assert(full.subrange(i, i + le + 1)[t] == full[i + t]);
    }
    if s.len() == 0 {
        assert(full[i + 0] == whole[0]);
        assert(full[i] == '"');
        assert(s =~= Seq::<char>::empty());
    } else {
        let c = s[0];
        let e = escape_char(c);
        let rest = s.skip(1);
        let lr = json_escaped(rest).len() as int;
        assert(json_escaped(s) == e + json_escaped(rest));
        let j = i + e.len() as int;
        assert forall|t: int| 0 <= t < lr + 1 implies #[trigger] full.subrange(j, j + lr + 1)[t]
            == (json_escaped(rest) + seq!['"'])[t] by {
            assert(full[i + (e.len() + t)] == whole[e.len() + t]);
            if t < lr {
                assert(whole[e.len() + t] == json_escaped(s)[e.len() + t]);
                assert(json_escaped(s)[e.len() + t] == json_escaped(rest)[t]);
            } else {
                assert(whole[e.len() + t] == '"');
            }
        }
        assert(full.subrange(j, j + lr + 1) =~= json_escaped(rest) + seq!['"']);
        lemma_parse_chars_encode(full, j, rest);
        let end = j + lr + 1;
        assert(end == i + le + 1);
        assert(full[i + 0] == whole[0]);
        assert(whole[0] == json_escaped(s)[0]);
        assert(json_escaped(s)[0] == e[0]);
        if c == '"' || c == '\\' || c == '\n' || c == '\r' || c == '\t' {
            assert(e.len() == 2);
            assert(full[i + 1] == whole[1]);
            assert(whole[1] == json_escaped(s)[1]);
            assert(json_escaped(s)[1] == e[1]);
            assert(full[i] == '\\');
            assert(i + 1 < full.len());
            assert(unescape(full[i + 1]) == Some(c));
            assert(parse_chars(full, i) == Some((seq![c] + rest, end)));
            assert(seq![c] + rest =~= s);
        } else if (c as u32) < 0x20 {
            let cv = c as u32;
            assert(e.len() == 6);
            assert(forall|t: int| 0 <= t < 6 ==> #[trigger] json_escaped(s)[t] == e[t]);
            assert(forall|t: int| 0 <= t < 6 ==> whole[t] == json_escaped(s)[t]);
            assert(full[i] == '\\');
            assert(full[i + 1] == 'u');
            assert(full[i + 2] == '0');
            assert(full[i + 3] == '0');
            assert(full[i + 4] == hex_char((cv / 16) as nat));
            assert(full[i + 5] == hex_char((cv % 16) as nat));
            assert(i + 6 <= full.len());
            lemma_hex_char_val((cv / 16) as nat);
            lemma_hex_char_val((cv % 16) as nat);
            assert(hex_val('0') == Some(0u32));
            assert(hex4(full, i + 2) == Some(cv));
            assert(cv < 0xD800);
            vstd::utf8::char_u32_cast(c, cv);
            assert((cv as char) == c);
            assert(parse_chars(full, i) == Some((seq![c] + rest, end)));
            assert(seq![c] + rest =~= s);
        } else {
            assert(e =~= seq![c]);
            assert(full[i] == c);
            assert(parse_chars(full, i) == Some((seq![c] + rest, end)));
            assert(seq![c] + rest =~= s);
        }
    }
}

/// Parsing undoes the encoder's escaping: the JSON string literal built
/// for any string `s` is read back as exactly `s`.
pub proof fn lemma_quoted_round_trip(s: Seq<char>)
    ensures
        parse_string(quoted(s), 0) == Some((s, quoted(s).len() as int)),
{
    let q = quoted(s);
    assert(q[0] == '"');
    assert(q.subrange(1, 1 + json_escaped(s).len() as int + 1) =~= json_escaped(s) + seq!['"']);
    lemma_parse_chars_encode(q, 1, s);
}

} // verus!



