//! MCP stdio servers: which configurations can be started, how messages are
//! framed, and how response header lines are read.

use vstd::prelude::*;
use std::collections::HashMap;
use crate::text::{
    ascii_lowercase, chars_eq, chars_of, dec, lit, lowercase, parse_usize, push_all, push_dec,
    split, split_exec, starts_with, starts_with_exec, string_of, to_ascii_lowercase_vec,
    to_lowercase, trim, trim_vec, byte_len,
};

verus! {

/// How to reach an MCP server.
#[derive(Debug, Clone)]
pub struct McpServerSpec {
    pub id: String,
    pub name: String,
    pub transport: String,
    pub command: String,
    pub args: Vec<String>,
    pub url: Option<String>,
    pub enabled: bool,
    pub env: HashMap<String, String>,
    pub headers: HashMap<String, String>,
}

/// Whether a server can be started over stdio: its transport, lowercased,
/// must be `stdio` and its trimmed command not empty. On success, the
/// command to run.
pub open spec fn stdio_command_of(transport: Seq<char>, name: Seq<char>, command: Seq<char>) -> Result<Seq<char>, Seq<char>> {
    if lowercase(transport) != "stdio"@ {
        Err("MCP transport '"@ + transport + "' is not supported for handshake yet"@)
    } else if trim(command).len() == 0 {
        Err("MCP server '"@ + name + "' has empty command"@)
    } else {
        Ok(trim(command))
    }
}

pub open spec fn res_view(r: Result<String, String>) -> Result<Seq<char>, Seq<char>> {
    match r {
        Ok(s) => Ok(s@),
        Err(e) => Err(e@),
    }
}

pub fn stdio_command(server: &McpServerSpec) -> (r: Result<String, String>)
    ensures
        res_view(r) == stdio_command_of(server.transport@, server.name@, server.command@),
{
    let t = to_lowercase(server.transport.as_str());
    if !chars_eq(&chars_of(t.as_str()), &chars_of("stdio")) {
        let mut m = chars_of("MCP transport '");
        push_all(&mut m, &chars_of(server.transport.as_str()));
        push_all(&mut m, &chars_of("' is not supported for handshake yet"));
        return Err(string_of(m.as_slice()));
    }
    let c = trim_vec(&chars_of(server.command.as_str()));
    if c.len() == 0 {
        let mut m = chars_of("MCP server '");
        push_all(&mut m, &chars_of(server.name.as_str()));
        push_all(&mut m, &chars_of("' has empty command"));
        return Err(string_of(m.as_slice()));
    }
    Ok(string_of(c.as_slice()))
}

/// The header sent before a message of `len` bytes.
pub fn frame_header(len: usize) -> (r: String)
    ensures
        r@ == "Content-Length: "@ + dec(len as nat) + "\r\n\r\n"@,
{
    let mut v = chars_of("Content-Length: ");
    push_dec(&mut v, len as u64);
    push_all(&mut v, &chars_of("\r\n\r\n"));
    string_of(v.as_slice())
}

/// `str::parse::<usize>`, used for the text of its error: what std's
/// `ParseIntError` displays.
#[verifier::external_body]
fn parse_usize_std(s: &str) -> (r: Result<usize, String>)
    ensures
        r is Ok <==> parse_usize(s@) is Some,
        r matches Ok(n) ==> parse_usize(s@) == Some(n as nat),
{
    s.parse::<usize>().map_err(|e| e.to_string())
}

/// A line of a message header.
#[derive(Debug, PartialEq)]
pub enum HeaderLine {
    /// The blank line that ends the header.
    End,
    /// A `Content-Length` line, with its value or the error for a bad one.
    ContentLength(Result<usize, String>),
    /// Any other header line.
    Other,
}

/// The value of a `content-length:` line: the trimmed text between the
/// first and second `:`.
pub open spec fn header_value(t: Seq<char>) -> Seq<char> {
    let parts = split(t, seq![':']);
    if parts.len() > 1 {
        trim(parts[1])
    } else {
        Seq::empty()
    }
}

/// What a header line is: blank once trimmed ends the header; one starting
/// (ASCII case-insensitively) with `content-length:` gives a length.
pub open spec fn header_line_kind(line: Seq<char>) -> int {
    let t = trim(line);
    if t.len() == 0 {
        0
    } else if starts_with(ascii_lowercase(t), "content-length:"@) {
        1
    } else {
        2
    }
}

pub fn header_line(line: &str) -> (r: HeaderLine)
    ensures
        header_line_kind(line@) == 0 ==> r == HeaderLine::End,
        header_line_kind(line@) == 2 ==> r == HeaderLine::Other,
        header_line_kind(line@) == 1 ==> match r {
            HeaderLine::ContentLength(Ok(n)) => parse_usize(header_value(trim(line@))) == Some(n as nat),
            HeaderLine::ContentLength(Err(e)) => parse_usize(header_value(trim(line@))) is None
                && crate::text::starts_with(
                e@,
                "Invalid Content-Length '"@ + header_value(trim(line@)) + "': "@,
            ),
            _ => false,
        },
{
    let t = trim_vec(&chars_of(line));
    if t.len() == 0 {
        return HeaderLine::End;
    }
    if !starts_with_exec(&to_ascii_lowercase_vec(&t), &chars_of("content-length:")) {
        return HeaderLine::Other;
    }
    let colon = vec![':'];
    assert(colon@ == seq![':']);
    let parts = split_exec(&t, &colon);
    let value = if parts.len() > 1 {
        trim_vec(&parts[1])
    } else {
        Vec::new()
    };
    assert(value@ == header_value(t@));
    match crate::text::parse_usize_range(&value, 0, value.len()) {
        Some(n) => {
            assert(value@.subrange(0, value@.len() as int) =~= value@);
            return HeaderLine::ContentLength(Ok(n));
        },
        None => {},
    }
    assert(value@.subrange(0, value@.len() as int) =~= value@);
    let vs = string_of(value.as_slice());
    match parse_usize_std(vs.as_str()) {
        Ok(n) => HeaderLine::ContentLength(Ok(n)),
        Err(e) => {
            let mut m = chars_of("Invalid Content-Length '");
            push_all(&mut m, &value);
            push_all(&mut m, &chars_of("': "));
            let ghost prefix = m@;
            push_all(&mut m, &chars_of(e.as_str()));
            assert(m@.subrange(0, prefix.len() as int) =~= prefix);
            HeaderLine::ContentLength(Err(string_of(m.as_slice())))
        },
    }
}

} // verus!
