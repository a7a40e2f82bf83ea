//! The computing parts of the command-line commands: what they print and
//! decide, given what was read.
use vstd::prelude::*;
use crate::config::Source;
use crate::refresh::hex_digit;
use crate::text::{chars_of, push_str, string_of};

pub mod agent_instructions;
pub mod broken_refs;
pub mod doctor;
pub mod edit;
pub mod hook_advice;
pub mod read;
pub mod sync;
pub mod versions;
pub mod write;

verus! {

/// Whether a content argument asks for the content to be read from
/// standard input (it is `-`).
pub fn wants_stdin(content: &str) -> (b: bool)
    ensures
        b == (content@ == "-"@),
{
    proof {
        reveal_strlit("-");
    }
    let c = chars_of(content);
    let b = c.len() == 1 && c[0] == '-';
    if b {
        assert(c@ =~= "-"@);
    }
    b
}

/// The content to use: `stdin_text` when the argument is `-`, the argument
/// itself otherwise.
pub fn resolve_content(content: String, stdin_text: String) -> (r: String)
    ensures
        r@ == (if content@ == "-"@ {
            stdin_text@
        } else {
            content@
        }),
{
    if wants_stdin(&content) {
        stdin_text
    } else {
        content
    }
}

/// How one character is written inside a JSON string (RFC 8259).
pub open spec fn json_char(c: char) -> Seq<char> {
    if c == '"' {
        seq!['\\', '"']
    } else if c == '\\' {
        seq!['\\', '\\']
    } else if c == '\n' {
        seq!['\\', 'n']
    } else if c == '\r' {
        seq!['\\', 'r']
    } else if c == '\t' {
        seq!['\\', 't']
    } else if (c as u32) < 0x20 {
        seq!['\\', 'u', '0', '0', hex_digit(((c as u32) / 16) as u8), hex_digit(((c as u32) % 16) as u8)]
    } else {
        seq![c]
    }
}

/// `s` escaped for a JSON string.
pub open spec fn json_escaped(s: Seq<char>) -> Seq<char>
    decreases s.len(),
{
    if s.len() == 0 {
        seq![]
    } else {
        json_escaped(s.drop_last()) + json_char(s.last())
    }
}

/// Escapes `s` for use inside a JSON string: `"` and `\` get a backslash,
/// newline, carriage return and tab their short escapes, other control
/// characters `\u00XX`.
pub fn json_escape(s: &str) -> (out: String)
    ensures
        out@ == json_escaped(s@),
{
    let cs = chars_of(s);
    let mut out: Vec<char> = Vec::new();
    let mut i: usize = 0;
    while i < cs.len()
        invariant
            i <= cs.len(),
            out@ == json_escaped(cs@.take(i as int)),
        decreases cs.len() - i,
    {
        let c = cs[i];
        let ghost before = out@;
        if c == '"' {
            out.push('\\');
            out.push('"');
        } else if c == '\\' {
            out.push('\\');
            out.push('\\');
        } else if c == '\n' {
            out.push('\\');
            out.push('n');
        } else if c == '\r' {
            out.push('\\');
            out.push('r');
        } else if c == '\t' {
            out.push('\\');
            out.push('t');
        } else if (c as u32) < 0x20 {
            let u = c as u32;
            out.push('\\');
            out.push('u');
            out.push('0');
            out.push('0');
            out.push(hex_char((u / 16) as u8));
            out.push(hex_char((u % 16) as u8));
        } else {
            out.push(c);
        }
        assert(cs@.take(i + 1).drop_last() == cs@.take(i as int));
        assert(out@ =~= before + json_char(c));
        i += 1;
    }
    assert(cs@.take(cs.len() as int) == cs@);
    string_of(&out)
}

fn hex_char(d: u8) -> (c: char)
    requires
        d < 16,
    ensures
        c == hex_digit(d),
{
    if d < 10 {
        (48 + d) as char
    } else {
        (87 + d) as char
    }
}

/// Escaped JSON text holds no control character: each one is written as an
/// escape sequence.
pub proof fn json_escaped_has_no_control_characters(s: Seq<char>)
    ensures
        forall|k: int| 0 <= k < json_escaped(s).len() ==> (#[trigger] json_escaped(s)[k] as u32) >= 0x20,
    decreases s.len(),
{
    if s.len() > 0 {
        json_escaped_has_no_control_characters(s.drop_last());
        let a = json_escaped(s.drop_last());
        let b = json_char(s.last());
        assert(json_escaped(s) == a + b);
        let c = s.last();
        if (c as u32) < 0x20 && c != '\n' && c != '\r' && c != '\t' {
            let hi = ((c as u32) / 16) as u8;
            let lo = ((c as u32) % 16) as u8;
            assert(hi < 16 && lo < 16);
            assert((hex_digit(hi) as u32) >= 0x20);
            assert((hex_digit(lo) as u32) >= 0x20);
        }
        assert forall|k: int| 0 <= k < (a + b).len() implies ((a + b)[k] as u32) >= 0x20 by {
            if k < a.len() {
                assert((a + b)[k] == a[k]);
            } else {
                assert((a + b)[k] == b[k - a.len()]);
            }
        }
    }
}

/// The character a two-character JSON escape `\x` stands for, given `x`.
pub open spec fn short_escape(x: char) -> Option<char> {
    if x == '"' {
        Some('"')
    } else if x == '\\' {
        Some('\\')
    } else if x == '/' {
        Some('/')
    } else if x == 'b' {
        Some('\u{8}')
    } else if x == 'f' {
        Some('\u{c}')
    } else if x == 'n' {
        Some('\n')
    } else if x == 'r' {
        Some('\r')
    } else if x == 't' {
        Some('\t')
    } else {
        None
    }
}

/// The value of a hexadecimal digit of either case; -1 for any other
/// character.
pub open spec fn hex_value(c: char) -> int {
    if '0' <= c && c <= '9' {
        c as int - 48
    } else if 'a' <= c && c <= 'f' {
        c as int - 87
    } else if 'A' <= c && c <= 'F' {
        c as int - 55
    } else {
        -1
    }
}

/// The code that the four hexadecimal digits after `\u` at the start of `t`
/// give.
pub open spec fn unicode_escape_value(t: Seq<char>) -> int {
    4096 * hex_value(t[2]) + 256 * hex_value(t[3]) + 16 * hex_value(t[4]) + hex_value(t[5])
}

/// The text that the body of a JSON string stands for (RFC 8259): each `\`
/// escape is read as the character it names, any other character as
/// itself. Surrogate pairs are not read here: the text ends at a `\u`
/// escape of a surrogate, as it does at an ill-formed escape.
pub open spec fn json_unescaped(t: Seq<char>) -> Seq<char>
    decreases t.len(),
{
    if t.len() == 0 {
        seq![]
    } else if t[0] != '\\' {
        seq![t[0]] + json_unescaped(t.drop_first())
    } else if t.len() >= 2 && short_escape(t[1]) is Some {
        seq![short_escape(t[1])->0] + json_unescaped(t.skip(2))
    } else if t.len() >= 6 && t[1] == 'u' && hex_value(t[2]) >= 0 && hex_value(t[3]) >= 0
        && hex_value(t[4]) >= 0 && hex_value(t[5]) >= 0 && !(0xD800 <= unicode_escape_value(t)
        <= 0xDFFF) {
        seq![unicode_escape_value(t) as char] + json_unescaped(t.skip(6))
    } else {
        seq![]
    }
}

proof fn lemma_escaped_front(s: Seq<char>)
    requires
        s.len() > 0,
    ensures
        json_escaped(s) == json_char(s[0]) + json_escaped(s.drop_first()),
    decreases s.len(),
{
    if s.len() == 1 {
        assert(s.drop_first() =~= Seq::<char>::empty());
        assert(s.drop_last() =~= Seq::<char>::empty());
        assert(json_char(s[0]) + Seq::<char>::empty() =~= json_char(s[0]));
        assert(Seq::<char>::empty() + json_char(s[0]) =~= json_char(s[0]));
    } else {
        lemma_escaped_front(s.drop_last());
        assert(s.drop_last().drop_first() =~= s.drop_first().drop_last());
        assert(s.drop_first().last() == s.last());
        assert(s.drop_last()[0] == s[0]);
        assert(json_char(s[0]) + json_escaped(s.drop_first().drop_last()) + json_char(s.last())
            =~= json_char(s[0]) + (json_escaped(s.drop_first().drop_last()) + json_char(s.last())));
    }
}

proof fn lemma_hex_digit_value(d: u8)
    requires
        d < 16,
    ensures
        hex_value(hex_digit(d)) == d,
{
}

proof fn lemma_unescape_char(c: char, rest: Seq<char>)
    ensures
        json_unescaped(json_char(c) + rest) == seq![c] + json_unescaped(rest),
{
    let t = json_char(c) + rest;
    if c == '"' || c == '\\' || c == '\n' || c == '\r' || c == '\t' {
        assert(t[0] == '\\');
        assert(t.skip(2) =~= rest);
    } else if (c as u32) < 0x20 {
        let v = c as u32;
        lemma_hex_digit_value((v / 16) as u8);
        lemma_hex_digit_value((v % 16) as u8);
        assert(t[0] == '\\' && t[1] == 'u' && t[2] == '0' && t[3] == '0');
        assert(unicode_escape_value(t) == v);
        assert(t.skip(6) =~= rest);
        assert((v as int) as char == c);
    } else {
        assert(t[0] == c);
        assert(t.drop_first() =~= rest);
    }
}

/// Escaped text reads back, as the body of a JSON string, as the text that
/// was escaped.
pub proof fn json_escaping_reads_back(s: Seq<char>)
    ensures
        json_unescaped(json_escaped(s)) == s,
    decreases s.len(),
{
    if s.len() > 0 {
        lemma_escaped_front(s);
        json_escaping_reads_back(s.drop_first());
        lemma_unescape_char(s[0], json_escaped(s.drop_first()));
        assert(seq![s[0]] + s.drop_first() =~= s);
    }
}

/// Why a write is refused.
#[derive(Debug)]
pub enum CommandError {
    /// The source is read-only.
    ReadOnly { source: String },
}

impl CommandError {
    /// The error's message.
    pub fn message(&self) -> (m: String)
        ensures
            match self {
                CommandError::ReadOnly { source } => m@ == "source '"@ + source@
                    + "' is read-only"@,
            },
    {
        let mut out: Vec<char> = Vec::new();
        match self {
            CommandError::ReadOnly { source } => {
                push_str(&mut out, "source '");
                push_str(&mut out, source);
                push_str(&mut out, "' is read-only");
            },
        }
        string_of(&out)
    }
}

/// Writes to a read-only source are refused.
pub fn ensure_writable(source: &Source) -> (r: Result<(), CommandError>)
    ensures
        r is Ok <==> !source.readonly,
        r matches Err(CommandError::ReadOnly { source: name }) ==> name@ == source.name@,
{
    if source.readonly {
        Err(CommandError::ReadOnly { source: source.name.clone() })
    } else {
        Ok(())
    }
}

/// Whether a commit to a source is pushed: when the source has a remote and
/// is not read-only.
pub fn pushes_after_commit(source: &Source) -> (b: bool)
    ensures
        b == (source.remote is Some && !source.readonly),
{
    source.remote.is_some() && !source.readonly
}

} // verus!
