//! The history-line format: one JSON object per line, with the fixed shape
//! `{"session_id":"...","ts":<seconds>,"text":"..."}`.
//!
//! Rendering escapes the two string fields (quote, backslash, and control
//! characters; the common ones by letter, the rest as `\u00XX`) and writes
//! the timestamp in decimal. Parsing accepts exactly that shape and undoes
//! the escaping; [`lemma_parse_render`] shows that parsing a rendered line
//! gives the three fields back exactly.

use vstd::prelude::*;

verus! {

/// The hexadecimal digit characters, lower case.
pub open spec fn hex_char(d: int) -> char {
    if d == 0 {
        '0'
    } else if d == 1 {
        '1'
    } else if d == 2 {
        '2'
    } else if d == 3 {
        '3'
    } else if d == 4 {
        '4'
    } else if d == 5 {
        '5'
    } else if d == 6 {
        '6'
    } else if d == 7 {
        '7'
    } else if d == 8 {
        '8'
    } else if d == 9 {
        '9'
    } else if d == 10 {
        'a'
    } else if d == 11 {
        'b'
    } else if d == 12 {
        'c'
    } else if d == 13 {
        'd'
    } else if d == 14 {
        'e'
    } else {
        'f'
    }
}

/// The value of a hexadecimal digit character, or -1 for any other character.
pub open spec fn hex_val(c: char) -> int {
    if '0' <= c && c <= '9' {
        c as int - '0' as int
    } else if 'a' <= c && c <= 'f' {
        c as int - 'a' as int + 10
    } else if 'A' <= c && c <= 'F' {
        c as int - 'A' as int + 10
    } else {
        -1
    }
}

/// Whether `c` is a hexadecimal digit.
pub open spec fn is_hex(c: char) -> bool {
    hex_val(c) >= 0
}

/// How one character appears inside a rendered JSON string.
pub open spec fn escape_char(c: char) -> Seq<char> {
    if c == '"' {
        seq!['\\', '"']
    } else if c == '\\' {
        seq!['\\', '\\']
    } else if c == '\n' {
        seq!['\\', 'n']
    } else if c == '\r' {
        seq!['\\', 'r']
    } else if c == '\t' {
        seq!['\\', 't']
    } else if (c as int) < 32 {
        seq!['\\', 'u', '0', '0', hex_char(c as int / 16), hex_char(c as int % 16)]
    } else {
        seq![c]
    }
}

/// A whole string field as it appears inside a rendered line.
pub open spec fn json_escaped(s: Seq<char>) -> Seq<char>
    decreases s.len(),
{
    if s.len() == 0 {
        Seq::empty()
    } else {
        escape_char(s[0]) + json_escaped(s.drop_first())
    }
}

/// The character a single-letter escape stands for, if the letter is one the
/// format uses.
pub open spec fn simple_unescape(c: char) -> Option<char> {
    if c == '"' {
        Some('"')
    } else if c == '\\' {
        Some('\\')
    } else if c == 'n' {
        Some('\n')
    } else if c == 'r' {
        Some('\r')
    } else if c == 't' {
        Some('\t')
    } else {
        None
    }
}

/// Reads a string body up to and including its closing quote: the unescaped
/// content, and how many characters were consumed. Nothing is read when the
/// body never closes or an escape is not one the format writes.
pub open spec fn take_string_body(s: Seq<char>) -> Option<(Seq<char>, int)>
    decreases s.len(),
{
    if s.len() == 0 {
        None
    } else if s[0] == '"' {
        Some((Seq::empty(), 1))
    } else if s[0] == '\\' {
        if s.len() < 2 {
            None
        } else if s[1] == 'u' {
            if s.len() < 6 {
                None
            } else if s[2] == '0' && s[3] == '0' && is_hex(s[4]) && is_hex(s[5]) {
                let c = ((16 * hex_val(s[4]) + hex_val(s[5])) as u8) as char;
                match take_string_body(s.skip(6)) {
                    Some(p) => Some((seq![c] + p.0, p.1 + 6)),
                    None => None,
                }
            } else {
                None
            }
        } else {
            match simple_unescape(s[1]) {
                Some(c) => match take_string_body(s.skip(2)) {
                    Some(p) => Some((seq![c] + p.0, p.1 + 2)),
                    None => None,
                },
                None => None,
            }
        }
    } else {
        match take_string_body(s.skip(1)) {
            Some(p) => Some((seq![s[0]] + p.0, p.1 + 1)),
            None => None,
        }
    }
}

/// Whether `c` is a decimal digit.
pub open spec fn is_digit(c: char) -> bool {
    '0' <= c && c <= '9'
}

/// The value of a decimal digit character.
pub open spec fn digit_val(c: char) -> int {
    c as int - '0' as int
}

/// The longest digit prefix of `s`.
pub open spec fn take_digits(s: Seq<char>) -> Seq<char>
    decreases s.len(),
{
    if s.len() > 0 && is_digit(s[0]) {
        seq![s[0]] + take_digits(s.drop_first())
    } else {
        Seq::empty()
    }
}

/// The number a digit string denotes, most significant digit first.
pub open spec fn digits_val(ds: Seq<char>) -> int
    decreases ds.len(),
{
    if ds.len() == 0 {
        0
    } else {
        digits_val(ds.drop_last()) * 10 + digit_val(ds.last())
    }
}

/// The decimal rendering of a non-negative number, no leading zeros.
pub open spec fn dec_rep(n: int) -> Seq<char>
    decreases n,
{
    if n < 10 {
        seq![hex_char(n)]
    } else {
        dec_rep(n / 10) + seq![hex_char(n % 10)]
    }
}

/// `s` begins with `p`.
pub open spec fn starts_with(s: Seq<char>, p: Seq<char>) -> bool {
    p.len() <= s.len() && s.subrange(0, p.len() as int) == p
}

/// A rendered history line for the given fields.
pub open spec fn line_spec(sid: Seq<char>, ts: u64, text: Seq<char>) -> Seq<char> {
    "{\"session_id\":\""@ + json_escaped(sid) + "\",\"ts\":"@ + dec_rep(ts as int)
        + ",\"text\":\""@ + json_escaped(text) + "\"}"@
}

/// The fields of a history line, when the whole line has exactly the
/// rendered shape; nothing otherwise.
pub open spec fn parse_line_spec(s: Seq<char>) -> Option<(Seq<char>, u64, Seq<char>)> {
    let p1 = "{\"session_id\":\""@;
    let p2 = ",\"ts\":"@;
    let p3 = ",\"text\":\""@;
    if !starts_with(s, p1) {
        None
    } else {
        match take_string_body(s.skip(p1.len() as int)) {
            None => None,
            Some(sidp) => {
                let s2 = s.skip(p1.len() + sidp.1);
                if !starts_with(s2, p2) {
                    None
                } else {
                    let ds = take_digits(s2.skip(p2.len() as int));
                    if ds.len() == 0 || digits_val(ds) > u64::MAX {
                        None
                    } else {
                        let s3 = s2.skip((p2.len() + ds.len()) as int);
                        if !starts_with(s3, p3) {
                            None
                        } else {
                            match take_string_body(s3.skip(p3.len() as int)) {
                                None => None,
                                Some(tp) => {
                                    let s4 = s3.skip(p3.len() + tp.1);
                                    if s4 == "}"@ {
                                        Some((sidp.0, digits_val(ds) as u64, tp.0))
                                    } else {
                                        None
                                    }
                                },
                            }
                        }
                    }
                }
            },
        }
    }
}

/// Relies on String::push: appends exactly the given character.
#[verifier::external_body]
fn push_char(s: &mut String, c: char)
    ensures
        final (s)@ == old(s)@.push(c),
{
    s.push(c);
}

/// The hexadecimal digit character for a value below sixteen.
fn hex_char_exec(d: u8) -> (c: char)
    requires
        d < 16,
    ensures
        c == hex_char(d as int),
{
    if d == 0 {
        '0'
    } else if d == 1 {
        '1'
    } else if d == 2 {
        '2'
    } else if d == 3 {
        '3'
    } else if d == 4 {
        '4'
    } else if d == 5 {
        '5'
    } else if d == 6 {
        '6'
    } else if d == 7 {
        '7'
    } else if d == 8 {
        '8'
    } else if d == 9 {
        '9'
    } else if d == 10 {
        'a'
    } else if d == 11 {
        'b'
    } else if d == 12 {
        'c'
    } else if d == 13 {
        'd'
    } else if d == 14 {
        'e'
    } else {
        'f'
    }
}

proof fn lemma_json_escaped_add(a: Seq<char>, b: Seq<char>)
    ensures
        json_escaped(a + b) == json_escaped(a) + json_escaped(b),
    decreases a.len(),
{
    if a.len() == 0 {
        assert(a + b =~= b);
        assert(json_escaped(a) + json_escaped(b) =~= json_escaped(b));
    } else {
        assert((a + b)[0] == a[0]);
        assert((a + b).drop_first() =~= a.drop_first() + b);
        lemma_json_escaped_add(a.drop_first(), b);
        assert(escape_char(a[0]) + (json_escaped(a.drop_first()) + json_escaped(b)) =~= (
        escape_char(a[0]) + json_escaped(a.drop_first())) + json_escaped(b));
    }
}

proof fn lemma_json_escaped_singleton(c: char)
    ensures
        json_escaped(seq![c]) == escape_char(c),
{
    assert(seq![c].drop_first() =~= Seq::<char>::empty());
    assert(escape_char(c) + json_escaped(Seq::<char>::empty()) =~= escape_char(c));
}

/// Renders a string field: every character in its escaped form.
pub fn escape_json(s: &str) -> (r: String)
    ensures
        r@ == json_escaped(s@),
{
    let n: usize = s.unicode_len();
    let mut out: String = String::new();
    let mut i: usize = 0;
    assert(s@.take(0) =~= Seq::<char>::empty());
    while i < n
        invariant
            n == s@.len(),
            i <= n,
            out@ == json_escaped(s@.take(i as int)),
        decreases n - i,
    {
        proof {
            assert(s@.take(i + 1) =~= s@.take(i as int) + seq![s@[i as int]]);
            lemma_json_escaped_add(s@.take(i as int), seq![s@[i as int]]);
            lemma_json_escaped_singleton(s@[i as int]);
            reveal_strlit("\\\"");
            reveal_strlit("\\\\");
            reveal_strlit("\\n");
            reveal_strlit("\\r");
            reveal_strlit("\\t");
            reveal_strlit("\\u00");
        }
        let c = s.get_char(i);
        if c == '"' {
            out.append("\\\"");
            assert(out@ =~= json_escaped(s@.take(i + 1)));
        } else if c == '\\' {
            out.append("\\\\");
            assert(out@ =~= json_escaped(s@.take(i + 1)));
        } else if c == '\n' {
            out.append("\\n");
            assert(out@ =~= json_escaped(s@.take(i + 1)));
        } else if c == '\r' {
            out.append("\\r");
            assert(out@ =~= json_escaped(s@.take(i + 1)));
        } else if c == '\t' {
            out.append("\\t");
            assert(out@ =~= json_escaped(s@.take(i + 1)));
        } else if (c as u32) < 32 {
            out.append("\\u00");
            let v: u32 = c as u32;
            push_char(&mut out, hex_char_exec((v / 16) as u8));
            push_char(&mut out, hex_char_exec((v % 16) as u8));
            assert(out@ =~= json_escaped(s@.take(i + 1)));
        } else {
            push_char(&mut out, c);
            assert(out@ =~= json_escaped(s@.take(i + 1)));
        }
        i = i + 1;
    }
    proof {
        assert(s@.take(n as int) =~= s@);
    }
    out
}

/// Renders a number in decimal.
pub fn u64_to_dec(n: u64) -> (r: String)
    ensures
        r@ == dec_rep(n as int),
    decreases n,
{
    if n < 10 {
        let mut s = String::new();
        push_char(&mut s, hex_char_exec(n as u8));
        assert(s@ =~= seq![hex_char(n as int)]);
        s
    } else {
        let mut s = u64_to_dec(n / 10);
        push_char(&mut s, hex_char_exec((n % 10) as u8));
        assert(s@ =~= dec_rep(n as int / 10) + seq![hex_char(n as int % 10)]);
        s
    }
}

/// Renders a whole history line for the given fields, without a trailing
/// newline.
pub fn render_line(session_id: &str, ts: u64, text: &str) -> (r: String)
    ensures
        r@ == line_spec(session_id@, ts, text@),
{
    let mut out: String = String::from_str("{\"session_id\":\"");
    out.append(escape_json(session_id).as_str());
    out.append("\",\"ts\":");
    out.append(u64_to_dec(ts).as_str());
    out.append(",\"text\":\"");
    out.append(escape_json(text).as_str());
    out.append("\"}");
    assert(out@ =~= line_spec(session_id@, ts, text@));
    out
}

/// The value of a hexadecimal digit character, if it is one.
fn hex_val_exec(c: char) -> (r: Option<u8>)
    ensures
        match r {
            Some(v) => is_hex(c) && v == hex_val(c),
            None => !is_hex(c),
        },
{
    if '0' <= c && c <= '9' {
        Some((c as u32 - '0' as u32) as u8)
    } else if 'a' <= c && c <= 'f' {
        Some((c as u32 - 'a' as u32 + 10) as u8)
    } else if 'A' <= c && c <= 'F' {
        Some((c as u32 - 'A' as u32 + 10) as u8)
    } else {
        None
    }
}

proof fn lemma_body_consumed_bounds(s: Seq<char>)
    ensures
        take_string_body(s) matches Some(p) ==> 1 <= p.1 <= s.len(),
    decreases s.len(),
{
    if s.len() == 0 {
    } else if s[0] == '"' {
    } else if s[0] == '\\' {
        if s.len() >= 6 {
            lemma_body_consumed_bounds(s.skip(6));
        }
        if s.len() >= 2 {
            lemma_body_consumed_bounds(s.skip(2));
        }
    } else {
        lemma_body_consumed_bounds(s.skip(1));
    }
}

/// Builds a one-character string in front of `rest`.
fn prepend_char(c: char, rest: String) -> (r: String)
    ensures
        r@ == seq![c] + rest@,
{
    let mut out = String::new();
    push_char(&mut out, c);
    out.append(rest.as_str());
    assert(out@ =~= seq![c] + rest@);
    out
}

/// Reads a string body starting at `i`, up to and including its closing
/// quote: the unescaped content and the index just past the quote.
fn parse_string_body(s: &str, n: usize, i: usize) -> (r: Option<(String, usize)>)
    requires
        n == s@.len(),
        i <= n,
    ensures
        match r {
            Some(p) => {
                &&& take_string_body(s@.skip(i as int)) == Some((p.0@, p.1 - i as int))
                &&& i < p.1 <= n
            },
            None => take_string_body(s@.skip(i as int)) is None,
        },
    decreases n - i,
{
    let ghost rem = s@.skip(i as int);
    if i >= n {
        return None;
    }
    let c = s.get_char(i);
    assert(rem[0] == s@[i as int]);
    if c == '"' {
        assert(take_string_body(rem) == Some((Seq::<char>::empty(), 1int)));
        let out = String::new();
        return Some((out, i + 1));
    }
    if c == '\\' {
        if i + 1 >= n {
            assert(rem.len() < 2);
            return None;
        }
        let e = s.get_char(i + 1);
        assert(rem[1] == s@[i + 1]);
        if e == 'u' {
            if n - i < 6 {
                assert(rem.len() < 6);
                return None;
            }
            assert(rem.len() >= 6);
            assert(rem[2] == s@[i + 2] && rem[3] == s@[i + 3] && rem[4] == s@[i + 4] && rem[5]
                == s@[i + 5]);
            let c2 = s.get_char(i + 2);
            let c3 = s.get_char(i + 3);
            if !(c2 == '0' && c3 == '0') {
                return None;
            }
            let h = match hex_val_exec(s.get_char(i + 4)) {
                Some(h) => h,
                None => {
                    return None;
                },
            };
            let l = match hex_val_exec(s.get_char(i + 5)) {
                Some(l) => l,
                None => {
                    return None;
                },
            };
            let v: u8 = 16 * h + l;
            let ch: char = v as char;
            proof {
                assert(s@.skip(i + 6) =~= rem.skip(6));
            }
            match parse_string_body(s, n, i + 6) {
                Some(p) => {
                    let end = p.1;
                    let out = prepend_char(ch, p.0);
                    return Some((out, end));
                },
                None => {
                    return None;
                },
            }
        } else {
            let ch = if e == '"' {
                '"'
            } else if e == '\\' {
                '\\'
            } else if e == 'n' {
                '\n'
            } else if e == 'r' {
                '\r'
            } else if e == 't' {
                '\t'
            } else {
                return None;
            };
            assert(simple_unescape(rem[1]) == Some(ch));
            proof {
                assert(s@.skip(i + 2) =~= rem.skip(2));
            }
            match parse_string_body(s, n, i + 2) {
                Some(p) => {
                    let end = p.1;
                    let out = prepend_char(ch, p.0);
                    return Some((out, end));
                },
                None => {
                    return None;
                },
            }
        }
    }
    proof {
        assert(s@.skip(i + 1) =~= rem.skip(1));
    }
    match parse_string_body(s, n, i + 1) {
        Some(p) => {
            let end = p.1;
            let out = prepend_char(c, p.0);
            Some((out, end))
        },
        None => None,
    }
}

proof fn lemma_take_digits_range(s: Seq<char>, i: int, j: int)
    requires
        0 <= i <= j <= s.len(),
        forall|k: int| i <= k < j ==> is_digit(s[k]),
        j == s.len() || !is_digit(s[j]),
    ensures
        take_digits(s.skip(i)) == s.subrange(i, j),
    decreases j - i,
{
    if i == j {
        assert(take_digits(s.skip(i)) =~= s.subrange(i, j));
    } else {
        assert(s.skip(i)[0] == s[i]);
        assert(s.skip(i).drop_first() =~= s.skip(i + 1));
        lemma_take_digits_range(s, i + 1, j);
        assert(seq![s[i]] + s.subrange(i + 1, j) =~= s.subrange(i, j));
    }
}

proof fn lemma_digits_val_bounds(ds: Seq<char>)
    requires
        forall|k: int| 0 <= k < ds.len() ==> is_digit(ds[k]),
    ensures
        digits_val(ds) >= 0,
    decreases ds.len(),
{
    if ds.len() > 0 {
        assert(forall|k: int| 0 <= k < ds.drop_last().len() ==> is_digit(ds.drop_last()[k]));
        lemma_digits_val_bounds(ds.drop_last());
    }
}

proof fn lemma_digits_val_prefix(ds: Seq<char>, k: int)
    requires
        forall|m: int| 0 <= m < ds.len() ==> is_digit(ds[m]),
        0 <= k <= ds.len(),
    ensures
        digits_val(ds.take(k)) <= digits_val(ds),
    decreases ds.len() - k,
{
    if k == ds.len() {
        assert(ds.take(k) =~= ds);
    } else {
        let next = ds.take(k + 1);
        assert(next.drop_last() =~= ds.take(k));
        assert(forall|m: int| 0 <= m < ds.take(k).len() ==> is_digit(ds.take(k)[m]));
        lemma_digits_val_bounds(ds.take(k));
        assert(digits_val(next) == digits_val(ds.take(k)) * 10 + digit_val(ds[k]));
        lemma_digits_val_prefix(ds, k + 1);
    }
}

/// Reads the decimal number starting at `i`: its value and the index just
/// past its digits. Nothing is read when no digit stands at `i` or the
/// number does not fit the timestamp's range.
fn parse_number(s: &str, n: usize, i: usize) -> (r: Option<(u64, usize)>)
    requires
        n == s@.len(),
        i <= n,
    ensures
        ({
            let ds = take_digits(s@.skip(i as int));
            match r {
                Some(p) => {
                    &&& ds.len() > 0
                    &&& digits_val(ds) == p.0
                    &&& p.1 == i + ds.len()
                    &&& i < p.1 <= n
                },
                None => ds.len() == 0 || digits_val(ds) > u64::MAX,
            }
        }),
{
    let mut j: usize = i;
    while j < n
        invariant
            n == s@.len(),
            i <= j <= n,
            forall|k: int| i <= k < j ==> is_digit(s@[k]),
        ensures
            i <= j <= n,
            forall|k: int| i <= k < j ==> is_digit(s@[k]),
            j == n || !is_digit(s@[j as int]),
        decreases n - j,
    {
        let c = s.get_char(j);
        if !('0' <= c && c <= '9') {
            break ;
        }
        j = j + 1;
    }
    proof {
        lemma_take_digits_range(s@, i as int, j as int);
    }
    let ghost ds = take_digits(s@.skip(i as int));
    assert(ds == s@.subrange(i as int, j as int));
    if j == i {
        return None;
    }
    let mut acc: u64 = 0;
    let mut k: usize = i;
    assert(ds.take(0) =~= Seq::<char>::empty());
    while k < j
        invariant
            n == s@.len(),
            i <= k <= j <= n,
            ds == take_digits(s@.skip(i as int)),
            ds == s@.subrange(i as int, j as int),
            forall|m: int| i <= m < j ==> is_digit(s@[m]),
            acc == digits_val(ds.take(k - i)),
        decreases j - k,
    {
        let c = s.get_char(k);
        assert(c == ds[k - i]);
        let d: u64 = (c as u32 - '0' as u32) as u64;
        assert(d == digit_val(c) && d <= 9);
        proof {
            assert(ds.take(k - i + 1).drop_last() =~= ds.take(k - i));
            assert(forall|m: int| 0 <= m < ds.len() ==> is_digit(ds[m]));
            lemma_digits_val_bounds(ds.take(k - i));
        }
        if acc > (u64::MAX - d) / 10 {
            proof {
                assert(10 * acc + d > u64::MAX) by {
                    assert(acc >= (u64::MAX - d) / 10 + 1);
                    assert(10 * ((u64::MAX - d) / 10) + (u64::MAX - d) % 10 == u64::MAX - d);
                };
                assert(digits_val(ds.take(k - i + 1)) == acc * 10 + d);
                lemma_digits_val_prefix(ds, k - i + 1);
            }
            return None;
        }
        proof {
            assert(10 * acc <= 10 * ((u64::MAX - d) / 10));
            assert(10 * ((u64::MAX - d) / 10) <= u64::MAX - d);
        }
        acc = acc * 10 + d;
        k = k + 1;
    }
    proof {
        assert(ds.take(j - i) =~= ds);
    }
    Some((acc, j))
}

/// Parses a whole history line into its (session, timestamp, text) fields.
pub fn parse_line(s: &str) -> (r: Option<(String, u64, String)>)
    ensures
        match r {
            Some(t) => parse_line_spec(s@) == Some((t.0@, t.1, t.2@)),
            None => parse_line_spec(s@) is None,
        },
{
    let p1: &str = "{\"session_id\":\"";
    let p2: &str = ",\"ts\":";
    let p3: &str = ",\"text\":\"";
    let n: usize = s.unicode_len();
    let p1_len: usize = p1.unicode_len();
    let p2_len: usize = p2.unicode_len();
    let p3_len: usize = p3.unicode_len();
    if n < p1_len || !crate::qualified::match_at(s, n, 0, p1, p1_len) {
        proof {
            lemma_prefix_occurs(s@, p1@, 0);
        }
        return None;
    }
    proof {
        lemma_prefix_occurs(s@, p1@, 0);
        assert(starts_with(s@, p1@));
    }
    let (sid, after_sid) = match parse_string_body(s, n, p1_len) {
        Some(p) => p,
        None => {
            return None;
        },
    };
    let ghost sidp = take_string_body(s@.skip(p1@.len() as int)).unwrap();
    let ghost s2 = s@.skip(p1@.len() + sidp.1);
    assert(s2 =~= s@.skip(after_sid as int));
    if n - after_sid < p2_len || !crate::qualified::match_at(s, n, after_sid, p2, p2_len) {
        proof {
            lemma_prefix_occurs(s@, p2@, after_sid as int);
        }
        return None;
    }
    proof {
        lemma_prefix_occurs(s@, p2@, after_sid as int);
        assert(starts_with(s2, p2@));
        assert(s2.skip(p2@.len() as int) =~= s@.skip(after_sid + p2@.len()));
    }
    let (ts, after_ts) = match parse_number(s, n, after_sid + p2_len) {
        Some(p) => p,
        None => {
            return None;
        },
    };
    let ghost ds = take_digits(s2.skip(p2@.len() as int));
    let ghost s3 = s2.skip((p2@.len() + ds.len()) as int);
    assert(s3 =~= s@.skip(after_ts as int));
    if n - after_ts < p3_len || !crate::qualified::match_at(s, n, after_ts, p3, p3_len) {
        proof {
            lemma_prefix_occurs(s@, p3@, after_ts as int);
        }
        return None;
    }
    proof {
        lemma_prefix_occurs(s@, p3@, after_ts as int);
        assert(starts_with(s3, p3@));
        assert(s3.skip(p3@.len() as int) =~= s@.skip(after_ts + p3@.len()));
    }
    let (text, after_text) = match parse_string_body(s, n, after_ts + p3_len) {
        Some(p) => p,
        None => {
            return None;
        },
    };
    let ghost tp = take_string_body(s3.skip(p3@.len() as int)).unwrap();
    let ghost s4 = s3.skip(p3@.len() + tp.1);
    assert(s4 =~= s@.skip(after_text as int));
    proof {
        reveal_strlit("}");
    }
    if n - after_text == 1 && s.get_char(after_text) == '}' {
        assert(s4 =~= "}"@);
        Some((sid, ts, text))
    } else {
        assert(s4 != "}"@) by {
            if s4 == "}"@ {
                assert(s4.len() == 1);
                assert(s4[0] == '}');
                assert(s@[after_text as int] == '}');
            }
        }
        None
    }
}

proof fn lemma_char_bound(c: char)
    ensures
        0 <= (c as int),
        (c as int) < 0x110000,
{
}

proof fn lemma_hex_roundtrip(d: int)
    requires
        0 <= d < 16,
    ensures
        is_hex(hex_char(d)),
        hex_val(hex_char(d)) == d,
        d < 10 ==> is_digit(hex_char(d)) && digit_val(hex_char(d)) == d,
{
}

proof fn lemma_body_roundtrip(x: Seq<char>, r: Seq<char>)
    ensures
        take_string_body(json_escaped(x) + seq!['"'] + r) == Some(
            (x, json_escaped(x).len() + 1int),
        ),
    decreases x.len(),
{
    let s = json_escaped(x) + seq!['"'] + r;
    if x.len() == 0 {
        assert(s[0] == '"');
        assert(take_string_body(s) == Some((Seq::<char>::empty(), 1int)));
        assert(x =~= Seq::<char>::empty());
    } else {
        let c = x[0];
        let x2 = x.drop_first();
        let esc = escape_char(c);
        assert(json_escaped(x) == esc + json_escaped(x2));
        let rest = json_escaped(x2) + seq!['"'] + r;
        assert(s =~= esc + rest);
        lemma_body_roundtrip(x2, r);
        if c == '"' || c == '\\' || c == '\n' || c == '\r' || c == '\t' {
            let e = if c == '"' {
                '"'
            } else if c == '\\' {
                '\\'
            } else if c == '\n' {
                'n'
            } else if c == '\r' {
                'r'
            } else {
                't'
            };
            assert(esc =~= seq!['\\', e]);
            assert(s[0] == '\\' && s[1] == e);
            assert(s.len() >= 2);
            assert(e != 'u');
            assert(simple_unescape(e) == Some(c));
            assert(s.skip(2) =~= rest);
            assert(seq![c] + x2 =~= x);
        } else if (c as int) < 32 {
            let ci = c as int;
            lemma_char_bound(c);
            assert(0 <= ci);
            assert(0 <= ci / 16 < 2 && 0 <= ci % 16 < 16) by (nonlinear_arith)
                requires
                    0 <= ci < 32,
            ;
            let h = hex_char(ci / 16);
            let l = hex_char(ci % 16);
            assert(esc =~= seq!['\\', 'u', '0', '0', h, l]);
            assert(s.len() >= 6);
            assert(s[0] == '\\' && s[1] == 'u' && s[2] == '0' && s[3] == '0' && s[4] == h && s[5]
                == l);
            lemma_hex_roundtrip(ci / 16);
            lemma_hex_roundtrip(ci % 16);
            assert(16 * (ci / 16) + ci % 16 == ci) by (nonlinear_arith);
            assert(16 * hex_val(h) + hex_val(l) == ci);
            assert(((ci as u8) as char) == c);
            assert(s.skip(6) =~= rest);
            assert(seq![c] + x2 =~= x);
        } else {
            assert(esc =~= seq![c]);
            assert(s[0] == c);
            assert(c != '"' && c != '\\');
            assert(s.skip(1) =~= rest);
            assert(seq![c] + x2 =~= x);
        }
    }
}

proof fn lemma_dec_rep_digits(n: int)
    requires
        0 <= n,
    ensures
        dec_rep(n).len() >= 1,
        forall|k: int| 0 <= k < dec_rep(n).len() ==> is_digit(#[trigger] dec_rep(n)[k]),
    decreases n,
{
    if n < 10 {
        lemma_hex_roundtrip(n);
    } else {
        lemma_dec_rep_digits(n / 10);
        lemma_hex_roundtrip(n % 10);
        assert(forall|k: int|
            0 <= k < dec_rep(n / 10).len() ==> dec_rep(n)[k] == dec_rep(n / 10)[k]);
        assert(dec_rep(n)[dec_rep(n).len() - 1] == hex_char(n % 10));
    }
}

proof fn lemma_dec_rep_val(n: int)
    requires
        0 <= n,
    ensures
        digits_val(dec_rep(n)) == n,
    decreases n,
{
    if n < 10 {
        lemma_hex_roundtrip(n);
        assert(digits_val(Seq::<char>::empty()) == 0);
        assert(dec_rep(n).drop_last() =~= Seq::<char>::empty());
        assert(dec_rep(n).last() == hex_char(n));
        assert(digit_val(hex_char(n)) == n);
    } else {
        assert(0 <= n / 10 && 0 <= n % 10 < 10 && (n / 10) * 10 + n % 10 == n) by (
        nonlinear_arith)
            requires
                10 <= n,
        ;
        lemma_dec_rep_val(n / 10);
        lemma_hex_roundtrip(n % 10);
        assert(dec_rep(n).drop_last() =~= dec_rep(n / 10));
        assert(dec_rep(n).last() == hex_char(n % 10));
    }
}

proof fn lemma_take_digits_stops(ds: Seq<char>, rest: Seq<char>)
    requires
        forall|k: int| 0 <= k < ds.len() ==> is_digit(#[trigger] ds[k]),
        rest.len() > 0,
        !is_digit(rest[0]),
    ensures
        take_digits(ds + rest) == ds,
    decreases ds.len(),
{
    let s = ds + rest;
    if ds.len() == 0 {
        assert(s =~= rest);
        assert(take_digits(s) =~= ds);
    } else {
        assert(s[0] == ds[0]);
        assert(s.drop_first() =~= ds.drop_first() + rest);
        lemma_take_digits_stops(ds.drop_first(), rest);
        assert(seq![ds[0]] + ds.drop_first() =~= ds);
    }
}

/// Parsing a rendered line gives the three fields back exactly, whatever
/// they hold: the escaping is undone and the timestamp re-read.
pub proof fn lemma_parse_render(sid: Seq<char>, ts: u64, text: Seq<char>)
    ensures
        parse_line_spec(line_spec(sid, ts, text)) == Some((sid, ts, text)),
{
    let p1 = "{\"session_id\":\""@;
    let m1 = "\",\"ts\":"@;
    let p2 = ",\"ts\":"@;
    let m2 = ",\"text\":\""@;
    let tail = "\"}"@;
    let p4 = "}"@;
    reveal_strlit("{\"session_id\":\"");
    reveal_strlit("\",\"ts\":");
    reveal_strlit(",\"ts\":");
    reveal_strlit(",\"text\":\"");
    reveal_strlit("\"}");
    reveal_strlit("}");
    let je_sid = json_escaped(sid);
    let je_text = json_escaped(text);
    let dec = dec_rep(ts as int);
    let line = line_spec(sid, ts, text);
    assert(line =~= p1 + je_sid + m1 + dec + m2 + je_text + tail);
    lemma_dec_rep_digits(ts as int);
    lemma_dec_rep_val(ts as int);
    assert(starts_with(line, p1)) by {
        assert(line.subrange(0, p1.len() as int) =~= p1);
    }
    let rest1 = m1.skip(1) + dec + m2 + je_text + tail;
    assert(m1[0] == '"');
    assert(line.skip(p1.len() as int) =~= je_sid + seq!['"'] + rest1);
    lemma_body_roundtrip(sid, rest1);
    assert(take_string_body(line.skip(p1.len() as int)) == Some((sid, je_sid.len() + 1int)));
    let s2 = line.skip(p1.len() + je_sid.len() + 1int);
    assert(s2 =~= m1.skip(1) + dec + m2 + je_text + tail);
    assert(m1.skip(1) =~= p2);
    assert(s2 =~= p2 + dec + m2 + je_text + tail);
    assert(starts_with(s2, p2)) by {
        assert(s2.subrange(0, p2.len() as int) =~= p2);
    }
    let after_p2 = s2.skip(p2.len() as int);
    assert(after_p2 =~= dec + (m2 + je_text + tail));
    assert(m2[0] == ',');
    assert(!is_digit(','));
    lemma_take_digits_stops(dec, m2 + je_text + tail);
    assert(take_digits(after_p2) == dec);
    assert(digits_val(dec) == ts as int);
    let s3 = s2.skip((p2.len() + dec.len()) as int);
    assert(s3 =~= m2 + je_text + tail);
    assert(starts_with(s3, m2)) by {
        assert(s3.subrange(0, m2.len() as int) =~= m2);
    }
    assert(tail[0] == '"');
    assert(tail.skip(1) =~= p4);
    assert(s3.skip(m2.len() as int) =~= je_text + seq!['"'] + p4);
    lemma_body_roundtrip(text, p4);
    assert(take_string_body(s3.skip(m2.len() as int)) == Some((text, je_text.len() + 1int)));
    let s4 = s3.skip(m2.len() + je_text.len() + 1int);
    assert(s4 =~= p4);
}

proof fn lemma_escape_char_no_newline(c: char)
    ensures
        forall|k: int| 0 <= k < escape_char(c).len() ==> #[trigger] escape_char(c)[k] != '\n',
{
}

proof fn lemma_json_escaped_no_newline(s: Seq<char>)
    ensures
        forall|k: int| 0 <= k < json_escaped(s).len() ==> #[trigger] json_escaped(s)[k] != '\n',
    decreases s.len(),
{
    if s.len() > 0 {
        lemma_escape_char_no_newline(s[0]);
        lemma_json_escaped_no_newline(s.drop_first());
        assert forall|k: int|
            0 <= k < json_escaped(s).len() implies #[trigger] json_escaped(s)[k] != '\n' by {
            let esc = escape_char(s[0]);
            if k < esc.len() {
                assert(json_escaped(s)[k] == esc[k]);
            } else {
                assert(json_escaped(s)[k] == json_escaped(s.drop_first())[k - esc.len()]);
            }
        }
    }
}

proof fn lemma_dec_rep_no_newline(n: int)
    requires
        0 <= n,
    ensures
        forall|k: int| 0 <= k < dec_rep(n).len() ==> #[trigger] dec_rep(n)[k] != '\n',
{
    lemma_dec_rep_digits(n);
    assert forall|k: int| 0 <= k < dec_rep(n).len() implies #[trigger] dec_rep(n)[k] != '\n' by {
        assert(is_digit(dec_rep(n)[k]));
    }
}

/// A rendered line holds no newline character: one record is always exactly
/// one line of the log, whatever the fields hold.
pub proof fn lemma_line_has_no_newline(sid: Seq<char>, ts: u64, text: Seq<char>)
    ensures
        forall|k: int|
            0 <= k < line_spec(sid, ts, text).len() ==> #[trigger] line_spec(sid, ts, text)[k]
                != '\n',
{
    reveal_strlit("{\"session_id\":\"");
    reveal_strlit("\",\"ts\":");
    reveal_strlit(",\"text\":\"");
    reveal_strlit("\"}");
    lemma_json_escaped_no_newline(sid);
    lemma_json_escaped_no_newline(text);
    lemma_dec_rep_no_newline(ts as int);
    let p1 = "{\"session_id\":\""@;
    let m1 = "\",\"ts\":"@;
    let m2 = ",\"text\":\""@;
    let tail = "\"}"@;
    let je_sid = json_escaped(sid);
    let je_text = json_escaped(text);
    let dec = dec_rep(ts as int);
    let line = line_spec(sid, ts, text);
    assert forall|k: int| 0 <= k < line.len() implies #[trigger] line[k] != '\n' by {
        let b1 = p1.len() as int;
        let b2 = b1 + je_sid.len();
        let b3 = b2 + m1.len();
        let b4 = b3 + dec.len();
        let b5 = b4 + m2.len();
        let b6 = b5 + je_text.len();
        if k < b1 {
            assert(line[k] == p1[k]);
        } else if k < b2 {
            assert(line[k] == je_sid[k - b1]);
        } else if k < b3 {
            assert(line[k] == m1[k - b2]);
        } else if k < b4 {
            assert(line[k] == dec[k - b3]);
        } else if k < b5 {
            assert(line[k] == m2[k - b4]);
        } else if k < b6 {
            assert(line[k] == je_text[k - b5]);
        } else {
            assert(line[k] == tail[k - b6]);
        }
    }
}

proof fn lemma_prefix_occurs(s: Seq<char>, p: Seq<char>, i: int)
    requires
        0 <= i <= s.len(),
    ensures
        crate::qualified::occurs_at(s, p, i) <==> starts_with(s.skip(i), p),
{
    if i + p.len() <= s.len() {
        assert(s.skip(i).subrange(0, p.len() as int) =~= s.subrange(i, i + p.len()));
    }
}

} // verus!
