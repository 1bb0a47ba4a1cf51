//! The line-oriented text dialects for mappings, and what they share:
//! the parse-error type, line splitting and token counting.

pub mod csrg;
pub mod srg;
pub mod tsrg;

use vstd::prelude::*;
use vstd::string::StrSliceExecFns;
use vstd::string::StringExecFns;

use crate::model::ref_desc_of;
use crate::types::ReferenceType;
use crate::utils::is_space;
use crate::utils::lemma_token_end;
use crate::utils::token_end;
use crate::utils::SimpleParseError;
use crate::utils::SimpleParser;

verus! {

/// A failure while reading a mappings text: the offending raw line, the
/// 1-based input line number, the 0-based character offset in the line,
/// and an optional reason.  A processor fed single lines does not know
/// the line number and reports 0; the line-sequence entry points tag it.
#[derive(Debug)]
pub enum MappingsParseError {
    InvalidLine { line: String, line_number: usize, index: usize, reason: Option<String> },
}

/// The number of whitespace-separated tokens from `from` on; `in_token`
/// tells whether position `from` continues a token already counted.
pub open spec fn ws_tokens(s: Seq<char>, from: int, in_token: bool) -> int
    decreases s.len() - from,
{
    if from < 0 || from >= s.len() {
        0
    } else if is_space(s[from]) {
        ws_tokens(s, from + 1, false)
    } else if in_token {
        ws_tokens(s, from + 1, true)
    } else {
        1 + ws_tokens(s, from + 1, true)
    }
}

/// Counts whitespace-separated tokens in a string.
pub fn count_tokens(s: &str) -> (r: usize)
    ensures
        r == ws_tokens(s@, 0, false),
{
    let len = s.unicode_len();
    let mut count: usize = 0;
    let mut in_token = false;
    let mut i: usize = 0;
    while i < len
        invariant
            len == s@.len(),
            0 <= i <= len,
            count <= i,
            ws_tokens(s@, 0, false) == count + ws_tokens(s@, i as int, in_token),
        decreases len - i,
    {
        let c = s.get_char(i);
        if c == ' ' || c == '\t' || c == '\r' || c == '\n' {
            in_token = false;
        } else if !in_token {
            count = count + 1;
            in_token = true;
        }
        i = i + 1;
    }
    count
}

/// Token counting is insensitive to where the text starts.
pub proof fn lemma_ws_tokens_shift(s: Seq<char>, from: int, i: int, b: bool)
    requires
        0 <= from <= s.len(),
        0 <= i,
    ensures
        ws_tokens(s.skip(from), i, b) == ws_tokens(s, from + i, b),
    decreases s.len() - (from + i),
{
    if from + i < s.len() {
        assert(s.skip(from)[i] == s[from + i]);
        if is_space(s[from + i]) {
            lemma_ws_tokens_shift(s, from, i + 1, false);
        } else {
            lemma_ws_tokens_shift(s, from, i + 1, true);
        }
    }
}

/// A run of non-whitespace characters counts as one token.
pub proof fn lemma_ws_run(s: Seq<char>, from: int, to: int)
    requires
        0 <= from < to <= s.len(),
        forall|i: int| from <= i < to ==> !is_space(s[i]),
    ensures
        ws_tokens(s, from, false) == 1 + ws_tokens(s, to, true),
        ws_tokens(s, from, true) == ws_tokens(s, to, true),
    decreases to - from,
{
    if from + 1 < to {
        lemma_ws_run(s, from + 1, to);
    }
}

/// A token holds neither a `.` nor a `;`, so it can stand as an internal
/// class name.
pub open spec fn name_ok(n: Seq<char>) -> bool {
    forall|i: int| 0 <= i < n.len() ==> n[i] != '.' && n[i] != ';'
}

/// Reads one space-delimited token that could stand as an internal class
/// name: a `.` or a `;` in it is a scan error.
pub fn parse_clean_token<'a>(parser: &mut SimpleParser<'a>) -> (r: Result<&'a str, SimpleParseError>)
    requires
        old(parser).wf(),
    ensures
        final(parser).wf(),
        final(parser).text_v() == old(parser).text_v(),
        final(parser).pos_v() == token_end(old(parser).text_v(), old(parser).pos_v()),
        ({
            let tok = old(parser).text_v().subrange(old(parser).pos_v(), final(parser).pos_v());
            &&& (r is Ok <==> name_ok(tok))
            &&& (r matches Ok(t) ==> t@ == tok)
        }),
        r matches Err(e) ==> e.index <= old(parser).text_v().len(),
        r matches Err(e) ==> ({
            let s = old(parser).text_v();
            let from = old(parser).pos_v();
            let te = final(parser).pos_v();
            &&& from <= e.index < te
            &&& e.reason is Some
            &&& ((s[e.index as int] == '.' && (forall|j: int|
                from <= j < e.index ==> s[j] != '.')) || (s[e.index as int] == ';' && (forall|
                j: int,
            |
                from <= j < te ==> s[j] != '.') && (forall|j: int|
                from <= j < e.index ==> s[j] != ';')))
        }),
{
    let ghost s = old(parser).text_v();
    let ghost from = old(parser).pos_v();
    proof {
        parser.lemma_pos_bounds();
        lemma_token_end(s, from);
    }
    let start = parser.current_index();
    let token = match parser.parse_internal_name() {
        Ok(token) => token,
        Err(e) => {
            proof {
                parser.lemma_pos_bounds();
            }
            return Err(e);
        },
    };
    let len = token.unicode_len();
    let mut i: usize = 0;
    while i < len
        invariant
            parser.wf(),
            parser.text_v() == s,
            s == old(parser).text_v(),
            from == old(parser).pos_v(),
            start == from,
            0 <= from <= parser.pos_v() <= s.len(),
            parser.pos_v() == crate::utils::token_end(s, from),
            token@ == s.subrange(from, parser.pos_v()),
            len == token@.len(),
            0 <= i <= len,
            forall|j: int| 0 <= j < i ==> token@[j] != ';',
            forall|j: int| 0 <= j < len ==> token@[j] != '.',
        decreases len - i,
    {
        if token.get_char(i) == ';' {
            proof {
                parser.lemma_pos_bounds();
                parser.lemma_text_len();
                assert(start + i < parser.pos_v());
                assert(parser.pos_v() <= usize::MAX);
                assert forall|j: int| from <= j < parser.pos_v() implies s[j] != '.' by {
                    assert(token@[j - from] != '.');
                }
                assert forall|j: int| from <= j < start + i implies s[j] != ';' by {
                    assert(token@[j - from] != ';');
                }
                assert(s[start + i] == token@[i as int]);
            }
            return Err(
                SimpleParseError {
                    index: start + i,
                    reason: Some(String::from_str("separator in internal name")),
                },
            );
        }
        i = i + 1;
    }
    Ok(token)
}

/// Reads one space-delimited token as an internal class name.
pub fn parse_ref_token(parser: &mut SimpleParser) -> (r: Result<ReferenceType, SimpleParseError>)
    requires
        old(parser).wf(),
    ensures
        final(parser).wf(),
        final(parser).text_v() == old(parser).text_v(),
        final(parser).pos_v() == token_end(old(parser).text_v(), old(parser).pos_v()),
        ({
            let tok = old(parser).text_v().subrange(old(parser).pos_v(), final(parser).pos_v());
            &&& (r is Ok <==> name_ok(tok))
            &&& (r matches Ok(t) ==> t.wf() && t@ == ref_desc_of(tok))
        }),
        r matches Err(e) ==> e.index <= old(parser).text_v().len(),
        r matches Err(e) ==> ({
            let s = old(parser).text_v();
            let from = old(parser).pos_v();
            let te = final(parser).pos_v();
            &&& from <= e.index < te
            &&& e.reason is Some
            &&& ((s[e.index as int] == '.' && (forall|j: int|
                from <= j < e.index ==> s[j] != '.')) || (s[e.index as int] == ';' && (forall|
                j: int,
            |
                from <= j < te ==> s[j] != '.') && (forall|j: int|
                from <= j < e.index ==> s[j] != ';')))
        }),
{
    match parse_clean_token(parser) {
        Ok(token) => Ok(ReferenceType::from_internal_name(token)),
        Err(e) => Err(e),
    }
}

/// First index `i >= from` holding a newline, or `s.len()`.
pub open spec fn newline_at(s: Seq<char>, from: int) -> int
    decreases s.len() - from,
{
    if from < 0 || from >= s.len() {
        s.len() as int
    } else if s[from] == '\n' {
        from
    } else {
        newline_at(s, from + 1)
    }
}

pub proof fn lemma_newline_at(s: Seq<char>, from: int)
    requires
        0 <= from <= s.len(),
    ensures
        from <= newline_at(s, from) <= s.len(),
        forall|i: int| from <= i < newline_at(s, from) ==> s[i] != '\n',
        newline_at(s, from) < s.len() ==> s[newline_at(s, from)] == '\n',
    decreases s.len() - from,
{
    if from < s.len() && s[from] != '\n' {
        lemma_newline_at(s, from + 1);
    }
}

/// A line with a trailing carriage return stripped.
pub open spec fn strip_cr(l: Seq<char>) -> Seq<char> {
    if l.len() > 0 && l[l.len() - 1] == '\r' {
        l.drop_last()
    } else {
        l
    }
}

/// The lines of a text: split at `\n`, each line's trailing `\r`
/// stripped, and no final empty line after a terminating newline.
pub open spec fn split_lines_v(s: Seq<char>) -> Seq<Seq<char>>
    decreases s.len(),
{
    if s.len() == 0 {
        Seq::<Seq<char>>::empty()
    } else {
        let e = newline_at(s, 0);
        if 0 <= e < s.len() {
            seq![strip_cr(s.subrange(0, e))] + split_lines_v(s.skip(e + 1))
        } else {
            seq![strip_cr(s)]
        }
    }
}

/// Splits a text into lines.
pub fn split_lines(text: &str) -> (r: Vec<String>)
    ensures
        r@.map_values(|l: String| l@) == split_lines_v(text@),
{
    let ghost s = text@;
    let len = text.unicode_len();
    let mut lines: Vec<String> = Vec::new();
    let mut pos: usize = 0;
    proof {
        assert(s.skip(0) =~= s);
        assert(lines@.map_values(|l: String| l@) + split_lines_v(s) =~= split_lines_v(s));
    }
    while pos < len
        invariant
            s == text@,
            len == s.len(),
            0 <= pos <= len,
            split_lines_v(s) == lines@.map_values(|l: String| l@) + split_lines_v(
                s.skip(pos as int),
            ),
        decreases len - pos,
    {
        let ghost tail = s.skip(pos as int);
        // find the end of this line
        let mut e: usize = pos;
        while e < len
            invariant
                s == text@,
                len == s.len(),
                pos <= e <= len,
                forall|i: int| pos <= i < e ==> s[i] != '\n',
            ensures
                pos <= e <= len,
                forall|i: int| pos <= i < e ==> s[i] != '\n',
                e < len ==> s[e as int] == '\n',
            decreases len - e,
        {
            if text.get_char(e) == '\n' {
                break;
            }
            e = e + 1;
        }
        proof {
            lemma_newline_at(tail, 0);
            assert forall|i: int| 0 <= i < e - pos implies tail[i] != '\n' by {
                assert(tail[i] == s[pos + i]);
            }
            if e < len {
                assert(tail[e - pos] == '\n');
            }
            assert(newline_at(tail, 0) == e - pos) by {
                let ne = newline_at(tail, 0);
                if ne < e - pos {
                    assert(tail[ne] != '\n');
                }
                if e - pos < ne {
                    assert(tail[e - pos] != '\n');
                }
            }
        }
        // strip a trailing carriage return
        let line_end = if e > pos && text.get_char(e - 1) == '\r' {
            e - 1
        } else {
            e
        };
        let line = String::from_str(text.substring_char(pos, line_end));
        proof {
            assert(line@ =~= strip_cr(tail.subrange(0, e - pos))) by {
                assert(tail.subrange(0, e - pos) =~= s.subrange(pos as int, e as int));
                if e > pos && s[e - 1] == '\r' {
                    assert(strip_cr(s.subrange(pos as int, e as int)) =~= s.subrange(
                        pos as int,
                        line_end as int,
                    ));
                }
            }
            assert(tail.subrange(0, tail.len() as int) =~= tail);
        }
        lines.push(line);
        let ghost old_pos = pos as int;
        if e < len {
            pos = e + 1;
        } else {
            pos = len;
        }
        proof {
            let prev = lines@.drop_last();
            assert(prev.map_values(|l: String| l@).push(line@) =~= lines@.map_values(
                |l: String| l@,
            ));
            if e < len {
                assert(s.skip(old_pos).skip(e - old_pos + 1) =~= s.skip(pos as int));
                assert(split_lines_v(s.skip(old_pos)) == seq![line@] + split_lines_v(
                    s.skip(pos as int),
                ));
            } else {
                assert(split_lines_v(s.skip(old_pos)) == seq![line@]);
                assert(split_lines_v(s.skip(pos as int)) =~= Seq::<Seq<char>>::empty());
            }
            assert(prev.map_values(|l: String| l@) + (seq![line@] + split_lines_v(
                s.skip(pos as int),
            )) =~= lines@.map_values(|l: String| l@) + split_lines_v(s.skip(pos as int)));
        }
    }
    proof {
        assert(split_lines_v(s.skip(pos as int)) =~= Seq::<Seq<char>>::empty());
        assert(lines@.map_values(|l: String| l@) + Seq::<Seq<char>>::empty() =~= lines@.map_values(
            |l: String| l@,
        ));
    }
    lines
}

} // verus!
