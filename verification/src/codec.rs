use crate::errors::KvError;
use vstd::prelude::*;

verus! {

/// A command at the specification level: keys and values are character
/// sequences.
pub enum CmdV {
    SetV { key: Seq<char>, value: Seq<char> },
    RmV { key: Seq<char> },
    GetV { key: Seq<char> },
}

/// A store operation.  Only `SetData` and `RmData` are ever written to the
/// log; `GetData` exists as an in-memory request shape.
#[derive(Debug)]
pub enum OptData {
    /// Bind `key` to `value`.
    SetData { key: String, value: String },
    /// Drop `key`.
    RmData { key: String },
    /// Look `key` up.
    GetData { key: String },
}

impl View for OptData {
    type V = CmdV;

    open spec fn view(&self) -> CmdV {
        match self {
            OptData::SetData { key, value } => CmdV::SetV { key: key@, value: value@ },
            OptData::RmData { key } => CmdV::RmV { key: key@ },
            OptData::GetData { key } => CmdV::GetV { key: key@ },
        }
    }
}

/// The escape code a character is written with inside a quoted string, if it
/// has one.  The quote, the backslash and the common control characters are
/// escaped; everything else stands for itself.
pub open spec fn esc_code(c: char) -> Option<char> {
    if c == '"' {
        Some('"')
    } else if c == '\\' {
        Some('\\')
    } else if c == '\n' {
        Some('n')
    } else if c == '\t' {
        Some('t')
    } else if c == '\r' {
        Some('r')
    } else if c == '\u{0008}' {
        Some('b')
    } else if c == '\u{000c}' {
        Some('f')
    } else {
        None
    }
}

/// The character an escape code stands for, if the code is one the encoder
/// uses.
pub open spec fn unesc_code(e: char) -> Option<char> {
    if e == '"' {
        Some('"')
    } else if e == '\\' {
        Some('\\')
    } else if e == 'n' {
        Some('\n')
    } else if e == 't' {
        Some('\t')
    } else if e == 'r' {
        Some('\r')
    } else if e == 'b' {
        Some('\u{0008}')
    } else if e == 'f' {
        Some('\u{000c}')
    } else {
        None
    }
}

/// How one character appears inside a quoted string.
pub open spec fn esc_char(c: char) -> Seq<char> {
    match esc_code(c) {
        Some(e) => seq!['\\', e],
        None => seq![c],
    }
}

/// How a whole text appears inside a quoted string.
pub open spec fn escape(s: Seq<char>) -> Seq<char>
    decreases s.len(),
{
    if s.len() == 0 {
        Seq::empty()
    } else {
        esc_char(s[0]) + escape(s.skip(1))
    }
}

/// The opening of a `SetData` record, up to the first character of the key.
pub open spec fn set_open() -> Seq<char> {
    seq!['{', '"', 'S', 'e', 't', 'D', 'a', 't', 'a', '"', ':', '{', '"', 'k', 'e', 'y', '"', ':', '"']
}

/// The opening of an `RmData` record.
pub open spec fn rm_open() -> Seq<char> {
    seq!['{', '"', 'R', 'm', 'D', 'a', 't', 'a', '"', ':', '{', '"', 'k', 'e', 'y', '"', ':', '"']
}

/// The opening of a `GetData` record.
pub open spec fn get_open() -> Seq<char> {
    seq!['{', '"', 'G', 'e', 't', 'D', 'a', 't', 'a', '"', ':', '{', '"', 'k', 'e', 'y', '"', ':', '"']
}

/// What stands between the key and the value of a `SetData` record.
pub open spec fn value_mid() -> Seq<char> {
    seq![',', '"', 'v', 'a', 'l', 'u', 'e', '"', ':', '"']
}

/// What closes every record: the braces and the terminating newline.
pub open spec fn rec_close() -> Seq<char> {
    seq!['}', '}', '\n']
}

/// The one newline-terminated line a command is recorded as.
pub open spec fn encoded(c: CmdV) -> Seq<char> {
    match c {
        CmdV::SetV { key, value } => set_open() + escape(key) + seq!['"'] + value_mid() + escape(
            value,
        ) + seq!['"'] + rec_close(),
        CmdV::RmV { key } => rm_open() + escape(key) + seq!['"'] + rec_close(),
        CmdV::GetV { key } => get_open() + escape(key) + seq!['"'] + rec_close(),
    }
}

/// Collects the characters of `s` into a vector.
pub fn str_to_chars(s: &str) -> (r: Vec<char>)
    ensures
        r@ == s@,
{
    let n = s.unicode_len();
    let mut r: Vec<char> = Vec::new();
    let mut i: usize = 0;
    while i < n
        invariant
            i <= n,
            n == s@.len(),
            r@ == s@.take(i as int),
        decreases n - i,
    {
        r.push(s.get_char(i));
        i = i + 1;
        proof {
            assert(r@ =~= s@.take(i as int));
        }
    }
    proof {
        assert(s@.take(n as int) =~= s@);
    }
    r
}

/// Relies on `String`'s `FromIterator` over `char`: collecting characters
/// yields the string made of exactly those characters, in order.
#[verifier::external_body]
pub fn chars_to_string(v: &Vec<char>) -> (r: String)
    ensures
        r@ == v@,
{
    v.iter().collect()
}

/// Appends the escaped form of one character.
fn push_escaped_char(out: &mut Vec<char>, c: char)
    ensures
        final(out)@ == old(out)@ + esc_char(c),
{
    if c == '"' {
        out.push('\\');
        out.push('"');
    } else if c == '\\' {
        out.push('\\');
        out.push('\\');
    } else if c == '\n' {
        out.push('\\');
        out.push('n');
    } else if c == '\t' {
        out.push('\\');
        out.push('t');
    } else if c == '\r' {
        out.push('\\');
        out.push('r');
    } else if c == '\u{0008}' {
        out.push('\\');
        out.push('b');
    } else if c == '\u{000c}' {
        out.push('\\');
        out.push('f');
    } else {
        out.push(c);
    }
    proof {
        assert(final(out)@ =~= old(out)@ + esc_char(c));
    }
}

/// `escape` distributes over concatenation.
pub proof fn lemma_escape_concat(a: Seq<char>, b: Seq<char>)
    ensures
        escape(a + b) == escape(a) + escape(b),
    decreases a.len(),
{
    if a.len() == 0 {
        assert(a + b =~= b);
        assert(escape(a) + escape(b) =~= escape(b));
    } else {
        lemma_escape_concat(a.skip(1), b);
        assert((a + b).skip(1) =~= a.skip(1) + b);
        assert(escape(a + b) =~= escape(a) + escape(b));
    }
}

/// `escape` of a single character is its escaped form.
pub proof fn lemma_escape_one(c: char)
    ensures
        escape(seq![c]) == esc_char(c),
{
    let s = seq![c];
    assert(s.len() == 1);
    assert(s[0] == c);
    assert(s.skip(1) =~= Seq::<char>::empty());
    assert(escape(s) == esc_char(c) + escape(s.skip(1)));
    assert(escape(Seq::<char>::empty()) == Seq::<char>::empty());
    assert(esc_char(c) + Seq::<char>::empty() =~= esc_char(c));
}

/// Appends the escaped form of a string.
fn push_escaped(out: &mut Vec<char>, s: &str)
    ensures
        final(out)@ == old(out)@ + escape(s@),
{
    let n = s.unicode_len();
    let mut i: usize = 0;
    while i < n
        invariant
            i <= n,
            n == s@.len(),
            out@ == old(out)@ + escape(s@.take(i as int)),
        decreases n - i,
    {
        let c = s.get_char(i);
        push_escaped_char(out, c);
        proof {
            lemma_escape_concat(s@.take(i as int), seq![c]);
            assert(s@.take(i as int) + seq![c] =~= s@.take(i + 1));
            lemma_escape_one(c);
            assert(out@ =~= old(out)@ + escape(s@.take(i + 1)));
        }
        i = i + 1;
    }
    proof {
        assert(s@.take(n as int) =~= s@);
    }
}

/// Appends the characters of a literal piece of the record syntax.
fn push_lit(out: &mut Vec<char>, lit: &str)
    ensures
        final(out)@ == old(out)@ + lit@,
{
    let n = lit.unicode_len();
    let mut i: usize = 0;
    while i < n
        invariant
            i <= n,
            n == lit@.len(),
            out@ == old(out)@ + lit@.take(i as int),
        decreases n - i,
    {
        out.push(lit.get_char(i));
        i = i + 1;
        proof {
            assert(out@ =~= old(out)@ + lit@.take(i as int));
        }
    }
    proof {
        assert(lit@.take(n as int) =~= lit@);
    }
}

/// Serializes a command as its one-line record, newline included.
pub fn encode(d: &OptData) -> (r: Vec<char>)
    ensures
        r@ == encoded(d@),
{
    let mut r: Vec<char> = Vec::new();
    match d {
        OptData::SetData { key, value } => {
            proof {
                reveal_strlit("{\"SetData\":{\"key\":\"");
                reveal_strlit("\",\"value\":\"");
                reveal_strlit("\"}}\n");
                assert("{\"SetData\":{\"key\":\""@ =~= set_open());
                assert("\",\"value\":\""@ =~= seq!['"'] + value_mid());
                assert("\"}}\n"@ =~= seq!['"'] + rec_close());
            }
            push_lit(&mut r, "{\"SetData\":{\"key\":\"");
            push_escaped(&mut r, key.as_str());
            push_lit(&mut r, "\",\"value\":\"");
            push_escaped(&mut r, value.as_str());
            push_lit(&mut r, "\"}}\n");
        },
        OptData::RmData { key } => {
            proof {
                reveal_strlit("{\"RmData\":{\"key\":\"");
                reveal_strlit("\"}}\n");
                assert("{\"RmData\":{\"key\":\""@ =~= rm_open());
                assert("\"}}\n"@ =~= seq!['"'] + rec_close());
            }
            push_lit(&mut r, "{\"RmData\":{\"key\":\"");
            push_escaped(&mut r, key.as_str());
            push_lit(&mut r, "\"}}\n");
        },
        OptData::GetData { key } => {
            proof {
                reveal_strlit("{\"GetData\":{\"key\":\"");
                reveal_strlit("\"}}\n");
                assert("{\"GetData\":{\"key\":\""@ =~= get_open());
                assert("\"}}\n"@ =~= seq!['"'] + rec_close());
            }
            push_lit(&mut r, "{\"GetData\":{\"key\":\"");
            push_escaped(&mut r, key.as_str());
            push_lit(&mut r, "\"}}\n");
        },
    }
    proof {
        assert(r@ =~= encoded(d@));
    }
    r
}

/// Reads a quoted string body from the front of `s`, up to and including the
/// closing quote.  Yields the unescaped text and the number of characters
/// consumed.  Only the encoder's own output shape is accepted: a character
/// the encoder escapes may not stand bare, and a backslash must be followed
/// by a known code.
pub open spec fn parse_body(s: Seq<char>) -> Option<(Seq<char>, int)>
    decreases s.len(),
{
    if s.len() == 0 {
        None
    } else if s[0] == '"' {
        Some((Seq::empty(), 1))
    } else if s[0] == '\\' {
        if s.len() < 2 {
            None
        } else {
            match unesc_code(s[1]) {
                Some(c) => match parse_body(s.skip(2)) {
                    Some((t, n)) => Some((seq![c] + t, n + 2)),
                    None => None,
                },
                None => None,
            }
        }
    } else if esc_code(s[0]) is Some {
        None
    } else {
        match parse_body(s.skip(1)) {
            Some((t, n)) => Some((seq![s[0]] + t, n + 1)),
            None => None,
        }
    }
}

pub open spec fn starts_with(s: Seq<char>, p: Seq<char>) -> bool {
    s.len() >= p.len() && s.take(p.len() as int) == p
}

/// Strict decoding of one record line, terminator included.  `None` is a
/// malformed record.
pub open spec fn spec_decode(s: Seq<char>) -> Option<CmdV> {
    if starts_with(s, set_open()) {
        match parse_body(s.skip(set_open().len() as int)) {
            Some((k, n)) => {
                let rest = s.skip(set_open().len() + n);
                if starts_with(rest, value_mid()) {
                    match parse_body(rest.skip(value_mid().len() as int)) {
                        Some((v, m)) => {
                            if rest.skip(value_mid().len() + m) == rec_close() {
                                Some(CmdV::SetV { key: k, value: v })
                            } else {
                                None
                            }
                        },
                        None => None,
                    }
                } else {
                    None
                }
            },
            None => None,
        }
    } else if starts_with(s, rm_open()) {
        match parse_body(s.skip(rm_open().len() as int)) {
            Some((k, n)) => {
                if s.skip(rm_open().len() + n) == rec_close() {
                    Some(CmdV::RmV { key: k })
                } else {
                    None
                }
            },
            None => None,
        }
    } else if starts_with(s, get_open()) {
        match parse_body(s.skip(get_open().len() as int)) {
            Some((k, n)) => {
                if s.skip(get_open().len() + n) == rec_close() {
                    Some(CmdV::GetV { key: k })
                } else {
                    None
                }
            },
            None => None,
        }
    } else {
        None
    }
}

/// Reading a body from an escaped text, its closing quote, and anything
/// after recovers exactly the text.
pub proof fn lemma_parse_body_escape(s: Seq<char>, rest: Seq<char>)
    ensures
        parse_body(escape(s) + seq!['"'] + rest) == Some((s, escape(s).len() as int + 1)),
    decreases s.len(),
{
    let input = escape(s) + seq!['"'] + rest;
    if s.len() == 0 {
        assert(escape(s) == Seq::<char>::empty());
        assert(input =~= seq!['"'] + rest);
        assert(input[0] == '"');
        assert(s =~= Seq::<char>::empty());
    } else {
        let c = s[0];
        let tail_input = escape(s.skip(1)) + seq!['"'] + rest;
        lemma_parse_body_escape(s.skip(1), rest);
        assert(escape(s) == esc_char(c) + escape(s.skip(1)));
        match esc_code(c) {
            Some(e) => {
                assert(esc_char(c) == seq!['\\', e]);
                assert(input[0] == '\\');
                assert(input[1] == e);
                assert(input.len() >= 2);
                assert(unesc_code(e) == Some(c));
                assert(input.skip(2) =~= tail_input);
                assert(seq![c] + s.skip(1) =~= s);
                assert(escape(s).len() + 1 == (escape(s.skip(1)).len() + 1) + 2);
            },
            None => {
                assert(esc_char(c) == seq![c]);
                assert(input[0] == c);
                assert(c != '"' && c != '\\');
                assert(input.skip(1) =~= tail_input);
                assert(seq![c] + s.skip(1) =~= s);
                assert(escape(s).len() + 1 == (escape(s.skip(1)).len() + 1) + 1);
            },
        }
    }
}

/// What a successful body read consumed is exactly an escaped text and its
/// closing quote.
pub proof fn lemma_parse_body_sound(s: Seq<char>, t: Seq<char>, n: int)
    requires
        parse_body(s) == Some((t, n)),
    ensures
        0 < n <= s.len(),
        s.take(n) == escape(t) + seq!['"'],
        escape(t).len() + 1 == n,
    decreases s.len(),
{
    if s[0] == '"' {
        assert(t =~= Seq::<char>::empty());
        assert(s.take(1) =~= seq!['"']);
        assert(escape(t) + seq!['"'] =~= seq!['"']);
    } else if s[0] == '\\' {
        let e = s[1];
        let c = unesc_code(e)->Some_0;
        match parse_body(s.skip(2)) {
            Some((t2, n2)) => {
                lemma_parse_body_sound(s.skip(2), t2, n2);
                assert(t == seq![c] + t2);
                assert(n == n2 + 2);
                assert(esc_code(c) == Some(e));
                lemma_escape_concat(seq![c], t2);
                lemma_escape_one(c);
                assert(escape(t) == seq!['\\', e] + escape(t2));
                assert(s.skip(2).take(n2) == escape(t2) + seq!['"']);
                assert(s.take(n) =~= seq!['\\', e] + s.skip(2).take(n2));
                assert(s.take(n) =~= escape(t) + seq!['"']);
            },
            None => {
                assert(false);
            },
        }
    } else {
        let c = s[0];
        match parse_body(s.skip(1)) {
            Some((t2, n2)) => {
                lemma_parse_body_sound(s.skip(1), t2, n2);
                assert(t == seq![c] + t2);
                assert(n == n2 + 1);
                assert(esc_code(c) is None);
                lemma_escape_concat(seq![c], t2);
                lemma_escape_one(c);
                assert(escape(t) == seq![c] + escape(t2));
                assert(s.take(n) =~= seq![c] + s.skip(1).take(n2));
                assert(s.take(n) =~= escape(t) + seq!['"']);
            },
            None => {
                assert(false);
            },
        }
    }
}

/// No character of an escaped text is a newline.
pub open spec fn no_nl(s: Seq<char>) -> bool {
    forall|i: int| 0 <= i < s.len() ==> s[i] != '\n'
}

pub proof fn lemma_escape_no_newline(s: Seq<char>)
    ensures
        no_nl(escape(s)),
    decreases s.len(),
{
    if s.len() == 0 {
    } else {
        lemma_escape_no_newline(s.skip(1));
        assert(escape(s) == esc_char(s[0]) + escape(s.skip(1)));
        match esc_code(s[0]) {
            Some(e) => {
                assert(e != '\n');
            },
            None => {
                assert(s[0] != '\n');
            },
        }
    }
}

/// Every record is one line: it ends with its only newline.
pub proof fn lemma_encoded_line(c: CmdV)
    ensures
        encoded(c).len() >= 1,
        encoded(c)[encoded(c).len() - 1] == '\n',
        forall|i: int| 0 <= i < encoded(c).len() - 1 ==> encoded(c)[i] != '\n',
{
    assert(no_nl(set_open()));
    assert(no_nl(rm_open()));
    assert(no_nl(get_open()));
    assert(no_nl(value_mid()));
    assert(rec_close().len() == 3 && rec_close()[0] == '}' && rec_close()[1] == '}'
        && rec_close()[2] == '\n');
    match c {
        CmdV::SetV { key, value } => {
            lemma_escape_no_newline(key);
            lemma_escape_no_newline(value);
        },
        CmdV::RmV { key } => {
            lemma_escape_no_newline(key);
        },
        CmdV::GetV { key } => {
            lemma_escape_no_newline(key);
        },
    }
}

/// Decoding what was encoded yields the command back.
pub proof fn lemma_decode_encoded(c: CmdV)
    ensures
        spec_decode(encoded(c)) == Some(c),
{
    let s = encoded(c);
    match c {
        CmdV::SetV { key, value } => {
            let rest1 = value_mid() + escape(value) + seq!['"'] + rec_close();
            assert(s.take(set_open().len() as int) =~= set_open());
            assert(s.skip(set_open().len() as int) =~= escape(key) + seq!['"'] + rest1);
            lemma_parse_body_escape(key, rest1);
            let n = escape(key).len() as int + 1;
            let rest = s.skip(set_open().len() + n);
            assert(rest =~= rest1);
            assert(rest.take(value_mid().len() as int) =~= value_mid());
            assert(rest.skip(value_mid().len() as int) =~= escape(value) + seq!['"']
                + rec_close());
            lemma_parse_body_escape(value, rec_close());
            let m = escape(value).len() as int + 1;
            assert(rest.skip(value_mid().len() + m) =~= rec_close());
        },
        CmdV::RmV { key } => {
            assert(s[2] == 'R');
            assert(set_open()[2] == 'S');
            assert(s.len() >= set_open().len());
            assert(s.take(set_open().len() as int)[2] == 'R');
            assert(!starts_with(s, set_open()));
            assert(s.take(rm_open().len() as int) =~= rm_open());
            assert(s.skip(rm_open().len() as int) =~= escape(key) + seq!['"'] + rec_close());
            lemma_parse_body_escape(key, rec_close());
            let n = escape(key).len() as int + 1;
            assert(s.skip(rm_open().len() + n) =~= rec_close());
        },
        CmdV::GetV { key } => {
            assert(s[2] == 'G');
            assert(set_open()[2] == 'S');
            assert(rm_open()[2] == 'R');
            assert(s.len() >= set_open().len());
            assert(s.take(set_open().len() as int)[2] == 'G');
            assert(!starts_with(s, set_open()));
            assert(s.take(rm_open().len() as int)[2] == 'G');
            assert(!starts_with(s, rm_open()));
            assert(s.take(get_open().len() as int) =~= get_open());
            assert(s.skip(get_open().len() as int) =~= escape(key) + seq!['"'] + rec_close());
            lemma_parse_body_escape(key, rec_close());
            let n = escape(key).len() as int + 1;
            assert(s.skip(get_open().len() + n) =~= rec_close());
        },
    }
}

/// A line that decodes is exactly the encoding of what it decodes to: the
/// decoder accepts canonical records only.
#[verifier::rlimit(60)]
pub proof fn lemma_decode_sound(s: Seq<char>, c: CmdV)
    requires
        spec_decode(s) == Some(c),
    ensures
        s == encoded(c),
{
    if starts_with(s, set_open()) {
        let olen = set_open().len() as int;
        match parse_body(s.skip(olen)) {
            Some((k, n)) => {
                lemma_parse_body_sound(s.skip(olen), k, n);
                let rest = s.skip(olen + n);
                let mlen = value_mid().len() as int;
                match parse_body(rest.skip(mlen)) {
                    Some((v, m)) => {
                        lemma_parse_body_sound(rest.skip(mlen), v, m);
                        assert(rest.skip(mlen + m) == rec_close());
                        assert(c == CmdV::SetV { key: k, value: v });
                        assert(s.skip(olen).take(n) == escape(k) + seq!['"']);
                        assert(rest.skip(mlen).take(m) == escape(v) + seq!['"']);
                        assert(rest.take(mlen) == value_mid());
                        assert(s.take(olen) == set_open());
                        assert(rest =~= rest.take(mlen) + rest.skip(mlen).take(m) + rest.skip(
                            mlen + m,
                        ));
                        assert(s =~= s.take(olen) + s.skip(olen).take(n) + rest);
                        assert(s =~= encoded(c));
                    },
                    None => {
                        assert(false);
                    },
                }
            },
            None => {
                assert(false);
            },
        }
    } else if starts_with(s, rm_open()) {
        let olen = rm_open().len() as int;
        match parse_body(s.skip(olen)) {
            Some((k, n)) => {
                lemma_parse_body_sound(s.skip(olen), k, n);
                assert(s.skip(olen + n) == rec_close());
                assert(c == CmdV::RmV { key: k });
                assert(s =~= s.take(olen) + s.skip(olen).take(n) + s.skip(olen + n));
                assert(s =~= encoded(c));
            },
            None => {
                assert(false);
            },
        }
    } else {
        let olen = get_open().len() as int;
        match parse_body(s.skip(olen)) {
            Some((k, n)) => {
                lemma_parse_body_sound(s.skip(olen), k, n);
                assert(s.skip(olen + n) == rec_close());
                assert(c == CmdV::GetV { key: k });
                assert(s =~= s.take(olen) + s.skip(olen).take(n) + s.skip(olen + n));
                assert(s =~= encoded(c));
            },
            None => {
                assert(false);
            },
        }
    }
}

/// The character an escape code stands for.
fn unescape_char(e: char) -> (r: Option<char>)
    ensures
        r == unesc_code(e),
{
    if e == '"' {
        Some('"')
    } else if e == '\\' {
        Some('\\')
    } else if e == 'n' {
        Some('\n')
    } else if e == 't' {
        Some('\t')
    } else if e == 'r' {
        Some('\r')
    } else if e == 'b' {
        Some('\u{0008}')
    } else if e == 'f' {
        Some('\u{000c}')
    } else {
        None
    }
}

/// Whether the encoder writes this character escaped.
fn is_escaped_class(c: char) -> (b: bool)
    ensures
        b == (esc_code(c) is Some),
{
    c == '"' || c == '\\' || c == '\n' || c == '\t' || c == '\r' || c == '\u{0008}' || c
        == '\u{000c}'
}

/// A partial body read recomposed: `pre` characters already unescaped and
/// `used` characters already consumed, in front of what remains.
pub open spec fn pb_glue(pre: Seq<char>, used: int, r: Option<(Seq<char>, int)>) -> Option<
    (Seq<char>, int),
> {
    match r {
        Some((t, n)) => Some((pre + t, used + n)),
        None => None,
    }
}

/// Reads a quoted string body starting at `start`, implementing
/// `parse_body` on the suffix.
fn parse_body_exec(s: &Vec<char>, start: usize) -> (r: Option<(Vec<char>, usize)>)
    requires
        start <= s@.len(),
    ensures
        match r {
            Some(p) => parse_body(s@.skip(start as int)) == Some((p.0@, p.1 as int)) && start + p.1
                <= s@.len() && p.1 >= 1,
            None => parse_body(s@.skip(start as int)) is None,
        },
{
    let n = s.len();
    let mut i: usize = start;
    let mut out: Vec<char> = Vec::new();
    loop
        invariant
            start <= i <= n,
            n == s@.len(),
            parse_body(s@.skip(start as int)) == pb_glue(
                out@,
                i - start,
                parse_body(s@.skip(i as int)),
            ),
        decreases n - i,
    {
        if i == n {
            proof {
                assert(s@.skip(i as int) =~= Seq::<char>::empty());
            }
            return None;
        }
        let c = s[i];
        proof {
            assert(s@.skip(i as int)[0] == c);
            assert(s@.skip(i as int).len() == n - i);
        }
        if c == '"' {
            proof {
                assert(parse_body(s@.skip(i as int)) == Some((Seq::<char>::empty(), 1int)));
                assert(out@ + Seq::<char>::empty() =~= out@);
            }
            return Some((out, i + 1 - start));
        } else if c == '\\' {
            if i + 1 == n {
                return None;
            }
            let e = s[i + 1];
            proof {
                assert(s@.skip(i as int)[1] == e);
            }
            match unescape_char(e) {
                Some(c2) => {
                    let ghost pre = out@;
                    out.push(c2);
                    proof {
                        assert(s@.skip(i as int).skip(2) =~= s@.skip(i as int + 2));
                        match parse_body(s@.skip(i as int + 2)) {
                            Some((t, nn)) => {
                                assert(parse_body(s@.skip(i as int)) == Some(
                                    (seq![c2] + t, nn + 2),
                                ));
                                assert(pre + (seq![c2] + t) =~= out@ + t);
                            },
                            None => {},
                        }
                    }
                    i = i + 2;
                },
                None => {
                    return None;
                },
            }
        } else if is_escaped_class(c) {
            return None;
        } else {
            let ghost pre = out@;
            out.push(c);
            proof {
                assert(s@.skip(i as int).skip(1) =~= s@.skip(i as int + 1));
                match parse_body(s@.skip(i as int + 1)) {
                    Some((t, nn)) => {
                        assert(parse_body(s@.skip(i as int)) == Some((seq![c] + t, nn + 1)));
                        assert(pre + (seq![c] + t) =~= out@ + t);
                    },
                    None => {},
                }
            }
            i = i + 1;
        }
    }
}

/// Whether the characters of `p` stand at position `at` of `s`.
fn prefix_at(s: &Vec<char>, at: usize, p: &str) -> (b: bool)
    requires
        at <= s@.len(),
    ensures
        b == starts_with(s@.skip(at as int), p@),
{
    let plen = p.unicode_len();
    let total = s.len();
    if total - at < plen {
        proof {
            assert(s@.skip(at as int).len() < p@.len());
        }
        return false;
    }
    let mut j: usize = 0;
    while j < plen
        invariant
            j <= plen,
            plen == p@.len(),
            total == s@.len(),
            at + plen <= total,
            forall|idx: int| 0 <= idx < j ==> s@.skip(at as int)[idx] == p@[idx],
        decreases plen - j,
    {
        if s[at + j] != p.get_char(j) {
            proof {
                assert(s@.skip(at as int)[j as int] != p@[j as int]);
                assert(s@.skip(at as int).take(p@.len() as int)[j as int] != p@[j as int]);
            }
            return false;
        }
        proof {
            assert(s@.skip(at as int)[j as int] == s@[at + j]);
        }
        j = j + 1;
    }
    proof {
        assert(s@.skip(at as int).take(p@.len() as int) =~= p@);
    }
    true
}

/// Whether the record closes at `pos`: the braces, the newline, and nothing
/// after.
fn close_at(rec: &Vec<char>, pos: usize) -> (b: bool)
    requires
        pos <= rec@.len(),
    ensures
        b == (rec@.skip(pos as int) == rec_close()),
{
    let total = rec.len();
    if total - pos != 3 {
        proof {
            assert(rec@.skip(pos as int).len() != rec_close().len());
        }
        return false;
    }
    let b = rec[pos] == '}' && rec[pos + 1] == '}' && rec[pos + 2] == '\n';
    proof {
        if b {
            assert(rec@.skip(pos as int) =~= rec_close());
        } else {
            assert(rec@.skip(pos as int)[0] == rec@[pos as int]);
            assert(rec@.skip(pos as int)[1] == rec@[pos as int + 1]);
            assert(rec@.skip(pos as int)[2] == rec@[pos as int + 2]);
        }
    }
    b
}

/// Deserializes one record line, terminator included.  Fails with a decode
/// error on anything but a canonical record.
pub fn decode(rec: &Vec<char>) -> (r: Result<OptData, KvError>)
    ensures
        match r {
            Ok(d) => spec_decode(rec@) == Some(d@),
            Err(e) => spec_decode(rec@) is None && e == KvError::CorruptLog,
        },
{
    let total = rec.len();
    proof {
        reveal_strlit("{\"SetData\":{\"key\":\"");
        reveal_strlit("{\"RmData\":{\"key\":\"");
        reveal_strlit("{\"GetData\":{\"key\":\"");
        reveal_strlit(",\"value\":\"");
        assert("{\"SetData\":{\"key\":\""@ =~= set_open());
        assert("{\"RmData\":{\"key\":\""@ =~= rm_open());
        assert("{\"GetData\":{\"key\":\""@ =~= get_open());
        assert(",\"value\":\""@ =~= value_mid());
        assert(rec@.skip(0) =~= rec@);
    }
    if prefix_at(rec, 0, "{\"SetData\":{\"key\":\"") {
        let olen = "{\"SetData\":{\"key\":\"".unicode_len();
        match parse_body_exec(rec, olen) {
            Some((k, n)) => {
                let pos1 = olen + n;
                proof {
                    assert(rec@.skip(pos1 as int) =~= rec@.skip(set_open().len() as int + n));
                }
                if prefix_at(rec, pos1, ",\"value\":\"") {
                    let pos2 = pos1 + ",\"value\":\"".unicode_len();
                    proof {
                        assert(rec@.skip(pos1 as int).len() >= value_mid().len());
                        assert(rec@.skip(pos2 as int) =~= rec@.skip(pos1 as int).skip(
                            value_mid().len() as int,
                        ));
                    }
                    match parse_body_exec(rec, pos2) {
                        Some((v, m)) => {
                            let pos3 = pos2 + m;
                            proof {
                                assert(rec@.skip(pos3 as int) =~= rec@.skip(pos1 as int).skip(
                                    value_mid().len() + m,
                                ));
                            }
                            if close_at(rec, pos3) {
                                Ok(
                                    OptData::SetData {
                                        key: chars_to_string(&k),
                                        value: chars_to_string(&v),
                                    },
                                )
                            } else {
                                Err(KvError::CorruptLog)
                            }
                        },
                        None => Err(KvError::CorruptLog),
                    }
                } else {
                    Err(KvError::CorruptLog)
                }
            },
            None => Err(KvError::CorruptLog),
        }
    } else if prefix_at(rec, 0, "{\"RmData\":{\"key\":\"") {
        let olen = "{\"RmData\":{\"key\":\"".unicode_len();
        match parse_body_exec(rec, olen) {
            Some((k, n)) => {
                let pos1 = olen + n;
                proof {
                    assert(rec@.skip(pos1 as int) =~= rec@.skip(rm_open().len() as int + n));
                }
                if close_at(rec, pos1) {
                    Ok(OptData::RmData { key: chars_to_string(&k) })
                } else {
                    Err(KvError::CorruptLog)
                }
            },
            None => Err(KvError::CorruptLog),
        }
    } else if prefix_at(rec, 0, "{\"GetData\":{\"key\":\"") {
        let olen = "{\"GetData\":{\"key\":\"".unicode_len();
        match parse_body_exec(rec, olen) {
            Some((k, n)) => {
                let pos1 = olen + n;
                proof {
                    assert(rec@.skip(pos1 as int) =~= rec@.skip(get_open().len() as int + n));
                }
                if close_at(rec, pos1) {
                    Ok(OptData::GetData { key: chars_to_string(&k) })
                } else {
                    Err(KvError::CorruptLog)
                }
            },
            None => Err(KvError::CorruptLog),
        }
    } else {
        Err(KvError::CorruptLog)
    }
}

} // verus!
