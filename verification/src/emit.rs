//! Emission of a matcher's source text from a prefix tree.
//!
//! The text is that of the method which `method` states as a value: a `match`
//! on the next byte with its arms nested as deep as the tree, followed by a
//! loop that collects the rest of a token no literal starts with. The
//! caller's expressions are spliced in as they are given.

use crate::method::{build_method, method_of, Arms, Ending, Switch};
use crate::trie::ParseBranch;
use vstd::prelude::*;
use vstd::string::*;

verus! {

/// `String::push` appends one character to the string and leaves the rest of
/// it as it was.
pub assume_specification[ String::push ](s: &mut String, ch: char)
    ensures
        final(s)@ == old(s)@.push(ch),
;

/// The expressions that the caller has spliced into the text.
pub struct Splices {
    /// Reads the next byte.
    pub read_call: Seq<char>,
    /// The byte that ends a token.
    pub end: Seq<char>,
    /// The longest text that the collecting loop accepts.
    pub max_len: Seq<char>,
    /// Whether the byte `b` may stand in a token.
    pub valid: Seq<char>,
    /// The outcome for a token outside the vocabulary, with `{}` where the
    /// token's text goes.
    pub unknown: Seq<char>,
}

/// The same expressions as the emitting functions pass them on.
pub struct Expressions<'a> {
    pub read_call: &'a str,
    pub end: &'a str,
    pub max_len: &'a str,
    pub valid: &'a str,
    pub unknown: &'a str,
}

impl<'a> View for Expressions<'a> {
    type V = Splices;

    open spec fn view(&self) -> Splices {
        Splices {
            read_call: self.read_call@,
            end: self.end@,
            max_len: self.max_len@,
            valid: self.valid@,
            unknown: self.unknown@,
        }
    }
}

/// The template with every `{}` in it, taken from left to right, replaced by
/// `arg`.
pub open spec fn substitute(template: Seq<char>, arg: Seq<char>) -> Seq<char>
    decreases template.len(),
{
    if template.len() < 2 {
        template
    } else if template[0] == '{' && template[1] == '}' {
        arg + substitute(template.skip(2), arg)
    } else {
        seq![template[0]] + substitute(template.skip(1), arg)
    }
}

/// Four spaces for each level.
pub open spec fn indentation(levels: nat) -> Seq<char>
    decreases levels,
{
    if levels == 0 {
        Seq::<char>::empty()
    } else {
        indentation((levels - 1) as nat) + "    "@
    }
}

/// A line that holds `a` behind the padding.
pub open spec fn line1(pad: Seq<char>, a: Seq<char>) -> Seq<char> {
    pad + a + "\n"@
}

/// A line that holds `a`, `e` and `b` behind the padding.
pub open spec fn line3(pad: Seq<char>, a: Seq<char>, e: Seq<char>, b: Seq<char>) -> Seq<char> {
    pad + a + e + b + "\n"@
}

/// A line that holds `a`, `e1`, `b`, `e2` and `c` behind the padding.
pub open spec fn line5(
    pad: Seq<char>,
    a: Seq<char>,
    e1: Seq<char>,
    b: Seq<char>,
    e2: Seq<char>,
    c: Seq<char>,
) -> Seq<char> {
    pad + a + e1 + b + e2 + c + "\n"@
}

/// What the arm for the ending byte returns: the value, or the unknown
/// outcome of the bytes matched so far.
pub open spec fn ending_text(ending: Ending, matched: Seq<char>, unknown: Seq<char>) -> Seq<char> {
    match ending {
        Ending::Value(value) => value@,
        Ending::Unknown => substitute(unknown, "~\""@ + matched + "\""@),
    }
}

/// The text of `arms`, reached after the bytes `matched`: for each arm the
/// line that takes its byte, the `match` it goes on with, one level deeper,
/// and the line that closes it.
pub open spec fn arms_text(arms: Arms, matched: Seq<char>, pad: Seq<char>, x: Splices) -> Seq<char>
    decreases arms,
{
    match arms {
        Arms::Done => Seq::<char>::empty(),
        Arms::Arm { byte, then, rest } => {
            let c = byte as char;
            line5(pad, "Some(b) if b == '"@, seq![c], "' as u8 => match "@, x.read_call, " {"@)
                + switch_text(*then, matched.push(c), pad + "    "@, x) + line1(pad, "},"@)
                + arms_text(*rest, matched, pad, x)
        },
    }
}

/// The arms of one `match`, reached after the bytes `matched`: the arms that
/// take a byte, the arm for the ending byte where there is one, the arm that
/// enters the collecting loop with the bytes matched and the byte read, and
/// the arm for no match.
pub open spec fn switch_text(switch: Switch, matched: Seq<char>, pad: Seq<char>, x: Splices) -> Seq<
    char,
>
    decreases switch,
{
    arms_text(switch.arms, matched, pad, x) + (match switch.on_end {
        Some(ending) => line5(
            pad,
            "Some(b) if b == "@,
            x.end,
            " => return Some("@,
            ending_text(ending, matched, x.unknown),
            "),"@,
        ),
        None => Seq::<char>::empty(),
    }) + line5(pad, "Some(b) if "@, x.valid, " => (\""@, matched, "\", b),"@) + line1(
        pad,
        "_ => return None,"@,
    )
}


/// The loop that collects a token which no literal starts with.
pub open spec fn fallback_text(pad: Seq<char>, x: Splices) -> Seq<char> {
    line1(pad, "// OK, that didn't pan out. Let's read the rest and see what we get."@) + line1(
        pad,
        "let mut s = s.to_owned();"@,
    ) + line3(pad, "if s.len() >= "@, x.max_len, " {"@) + line1(
        pad,
        "    // Too long; bad request"@,
    ) + line1(pad, "    return None;"@) + line1(pad, "}"@) + line1(
        pad,
        "s.push_char(next_byte as char);"@,
    ) + line1(pad, "loop {"@) + line3(
        pad,
        "    match "@,
        x.read_call,
        " {"@,
    ) + line5(
        pad,
        "        Some(b) if b == "@,
        x.end,
        " => return Some("@,
        substitute(x.unknown, "s"@),
        "),"@,
    ) + line3(pad, "        Some(b) if "@, x.valid, " => {"@) + line3(
        pad,
        "            if s.len() >= "@,
        x.max_len,
        " {"@,
    ) + line1(pad, "                // Too long; bad request"@) + line1(
        pad,
        "                return None;"@,
    ) + line1(pad, "            }"@) + line1(pad, "            s.push_char(b as char);"@) + line1(
        pad,
        "        },"@,
    ) + line1(pad, "        _ => return None,"@) + line1(pad, "    }"@) + line1(pad, "}"@)
}

/// The whole text of `method`: its `match`, then the loop.
pub open spec fn method_text(method: Switch, indent: nat, x: Splices) -> Seq<char> {
    let pad = indentation(indent);
    line3(pad, "let (s, next_byte) = match "@, x.read_call, " {"@) + switch_text(
        method,
        Seq::<char>::empty(),
        pad + "    "@,
        x,
    ) + line1(pad, "};"@) + fallback_text(pad, x)
}

/// The template with each `{}` replaced by `arg`.
pub fn substituted(template: &str, arg: &str) -> (out: String)
    ensures
        out@ == substitute(template@, arg@),
{
    let n: usize = template.unicode_len();
    let mut out = String::new();
    let mut i: usize = 0;
    assert(template@.skip(0) =~= template@);
    assert(out@ + substitute(template@, arg@) =~= substitute(template@, arg@));
    while i < n
        invariant
            n == template@.len(),
            i <= n,
            substitute(template@, arg@) == out@ + substitute(template@.skip(i as int), arg@),
        decreases n - i,
    {
        let ghost before = out@;
        let ghost rest = template@.skip(i as int);
        let c: char = template.get_char(i);
        if c == '{' && i + 1 < n && template.get_char(i + 1) == '}' {
            out.append(arg);
            proof {
                assert(rest.skip(2) =~= template@.skip(i + 2));
                assert(before + (arg@ + substitute(rest.skip(2), arg@)) =~= (before + arg@)
                    + substitute(rest.skip(2), arg@));
            }
            i = i + 2;
        } else {
            out.push(c);
            proof {
                assert(rest.skip(1) =~= template@.skip(i + 1));
                if rest.len() < 2 {
                    assert(rest =~= seq![c]);
                    assert(substitute(rest.skip(1), arg@) =~= Seq::<char>::empty());
                    assert(substitute(rest, arg@) =~= seq![c] + substitute(rest.skip(1), arg@));
                }
                assert(before + (seq![c] + substitute(rest.skip(1), arg@)) =~= before.push(c)
                    + substitute(rest.skip(1), arg@));
            }
            i = i + 1;
        }
    }
    proof {
        assert(template@.skip(n as int) =~= Seq::<char>::empty());
        assert(out@ + Seq::<char>::empty() =~= out@);
    }
    out
}

/// The padding of `levels` levels.
pub fn make_indentation(levels: usize) -> (pad: String)
    ensures
        pad@ == indentation(levels as nat),
{
    let mut pad = String::new();
    let mut i: usize = 0;
    while i < levels
        invariant
            i <= levels,
            pad@ == indentation(i as nat),
        decreases levels - i,
    {
        pad.append("    ");
        i = i + 1;
    }
    pad
}

fn write_line1(writer: &mut String, pad: &str, a: &str)
    ensures
        final(writer)@ == old(writer)@ + line1(pad@, a@),
{
    writer.append(pad);
    writer.append(a);
    writer.append("\n");
    assert(writer@ =~= old(writer)@ + line1(pad@, a@));
}

fn write_line3(writer: &mut String, pad: &str, a: &str, e: &str, b: &str)
    ensures
        final(writer)@ == old(writer)@ + line3(pad@, a@, e@, b@),
{
    writer.append(pad);
    writer.append(a);
    writer.append(e);
    writer.append(b);
    writer.append("\n");
    assert(writer@ =~= old(writer)@ + line3(pad@, a@, e@, b@));
}

fn write_line5(writer: &mut String, pad: &str, a: &str, e1: &str, b: &str, e2: &str, c: &str)
    ensures
        final(writer)@ == old(writer)@ + line5(pad@, a@, e1@, b@, e2@, c@),
{
    writer.append(pad);
    writer.append(a);
    writer.append(e1);
    writer.append(b);
    writer.append(e2);
    writer.append(c);
    writer.append("\n");
    assert(writer@ =~= old(writer)@ + line5(pad@, a@, e1@, b@, e2@, c@));
}

fn write_arms(writer: &mut String, arms: &Arms, matched: &str, pad: &str, x: &Expressions)
    ensures
        final(writer)@ == old(writer)@ + arms_text(*arms, matched@, pad@, x@),
    decreases arms,
{
    match arms {
        Arms::Done => {
            assert(writer@ =~= old(writer)@ + arms_text(*arms, matched@, pad@, x@));
        },
        Arms::Arm { byte, then, rest } => {
            let c: char = *byte as char;
            let mut longer = String::from_str(matched);
            longer.push(c);
            let mut letter = String::new();
            letter.push(c);
            assert(letter@ =~= seq![c]);
            let mut inner = String::from_str(pad);
            inner.append("    ");
            write_line5(
                writer,
                pad,
                "Some(b) if b == '",
                letter.as_str(),
                "' as u8 => match ",
                x.read_call,
                " {",
            );
            write_switch(writer, &**then, longer.as_str(), inner.as_str(), x);
            write_line1(writer, pad, "},");
            write_arms(writer, &**rest, matched, pad, x);
            assert(writer@ =~= old(writer)@ + arms_text(*arms, matched@, pad@, x@));
        },
    }
}

fn write_switch(writer: &mut String, switch: &Switch, matched: &str, pad: &str, x: &Expressions)
    ensures
        final(writer)@ == old(writer)@ + switch_text(*switch, matched@, pad@, x@),
    decreases switch,
{
    write_arms(writer, &switch.arms, matched, pad, x);
    match &switch.on_end {
        Some(ending) => {
            let returned = match ending {
                Ending::Value(value) => value.clone(),
                Ending::Unknown => {
                    let mut arg = String::from_str("~\"");
                    arg.append(matched);
                    arg.append("\"");
                    substituted(x.unknown, arg.as_str())
                },
            };
            assert(returned@ == ending_text(*ending, matched@, x@.unknown));
            write_line5(
                writer,
                pad,
                "Some(b) if b == ",
                x.end,
                " => return Some(",
                returned.as_str(),
                "),",
            );
        },
        None => {},
    }
    write_line5(writer, pad, "Some(b) if ", x.valid, " => (\"", matched, "\", b),");
    write_line1(writer, pad, "_ => return None,");
    assert(writer@ =~= old(writer)@ + switch_text(*switch, matched@, pad@, x@));
}

fn write_fallback(writer: &mut String, pad: &str, x: &Expressions)
    ensures
        final(writer)@ == old(writer)@ + fallback_text(pad@, x@),
{
    let on_end = substituted(x.unknown, "s");
    write_line1(writer, pad, "// OK, that didn't pan out. Let's read the rest and see what we get.");
    write_line1(writer, pad, "let mut s = s.to_owned();");
    write_line3(writer, pad, "if s.len() >= ", x.max_len, " {");
    write_line1(writer, pad, "    // Too long; bad request");
    write_line1(writer, pad, "    return None;");
    write_line1(writer, pad, "}");
    write_line1(writer, pad, "s.push_char(next_byte as char);");
    write_line1(writer, pad, "loop {");
    write_line3(writer, pad, "    match ", x.read_call, " {");
    write_line5(
        writer,
        pad,
        "        Some(b) if b == ",
        x.end,
        " => return Some(",
        on_end.as_str(),
        "),",
    );
    write_line3(writer, pad, "        Some(b) if ", x.valid, " => {");
    write_line3(writer, pad, "            if s.len() >= ", x.max_len, " {");
    write_line1(writer, pad, "                // Too long; bad request");
    write_line1(writer, pad, "                return None;");
    write_line1(writer, pad, "            }");
    write_line1(writer, pad, "            s.push_char(b as char);");
    write_line1(writer, pad, "        },");
    write_line1(writer, pad, "        _ => return None,");
    write_line1(writer, pad, "    }");
    write_line1(writer, pad, "}");
    assert(writer@ =~= old(writer)@ + fallback_text(pad@, x@));
}

/// Appends to `writer` the text of `method`, with the first line at the
/// nesting level `indent`, at four spaces a level, and the expressions of the
/// surrounding code in their places.
pub fn write_method(
    writer: &mut String,
    method: &Switch,
    indent: usize,
    read_call: &str,
    end: &str,
    max_len: &str,
    valid: &str,
    unknown: &str,
)
    ensures
        final(writer)@ == old(writer)@ + method_text(
            *method,
            indent as nat,
            (Splices {
                read_call: read_call@,
                end: end@,
                max_len: max_len@,
                valid: valid@,
                unknown: unknown@,
            }),
        ),
{
    let x = Expressions { read_call, end, max_len, valid, unknown };
    let pad = make_indentation(indent);
    let mut inner = pad.clone();
    inner.append("    ");
    write_line3(writer, pad.as_str(), "let (s, next_byte) = match ", read_call, " {");
    proof {
        reveal_strlit("");
        assert(""@ =~= Seq::<char>::empty());
    }
    write_switch(writer, method, "", inner.as_str(), &x);
    write_line1(writer, pad.as_str(), "};");
    write_fallback(writer, pad.as_str(), &x);
    assert(writer@ =~= old(writer)@ + method_text(*method, indent as nat, x@));
}

/// Appends to `writer` the source of a method that reads a token byte by
/// byte and returns the value of the literal it spells, the unknown outcome
/// of its text where no literal spells it, or `None`.
///
/// `branches` is the prefix tree of the literals, `indent` the nesting level
/// of the first line, at four spaces a level. The other arguments are
/// expressions of the surrounding code and go into the text unchanged:
/// `read_call` reads a byte, `end` is the byte that ends a token, `max_len`
/// the longest text to collect, `valid` tells whether the byte `b` may stand
/// in a token, and `unknown` is the outcome for a token outside the
/// vocabulary, in which each `{}` is replaced by the expression of the text.
pub fn generate_branchified_method(
    writer: &mut String,
    branches: &[ParseBranch],
    indent: usize,
    read_call: &str,
    end: &str,
    max_len: &str,
    valid: &str,
    unknown: &str,
)
    ensures
        final(writer)@ == old(writer)@ + method_text(
            method_of(branches@),
            indent as nat,
            (Splices {
                read_call: read_call@,
                end: end@,
                max_len: max_len@,
                valid: valid@,
                unknown: unknown@,
            }),
        ),
{
    let method = build_method(branches);
    write_method(writer, &method, indent, read_call, end, max_len, valid, unknown);
}

} // verus!
