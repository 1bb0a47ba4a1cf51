//! A minimal single-pass character scanner with lookahead, literal
//! matching and delimited-token extraction, plus small string helpers.

use vstd::prelude::*;
use vstd::string::StrSliceExecFns;
use vstd::string::StringExecFns;

verus! {

/// A structured scan failure: the character offset it happened at and an
/// optional human-readable reason.
pub struct SimpleParseError {
    pub index: usize,
    pub reason: Option<String>,
}

/// `c` counts as whitespace for the scanner.
pub open spec fn is_space(c: char) -> bool {
    c == ' ' || c == '\t' || c == '\r' || c == '\n'
}

/// First index `i >= from` with `f(s[i])`, or `s.len()` if none.
pub open spec fn scan_stop(s: Seq<char>, from: int, f: spec_fn(char) -> bool) -> int
    decreases s.len() - from,
{
    if from < 0 || from >= s.len() {
        s.len() as int
    } else if f(s[from]) {
        from
    } else {
        scan_stop(s, from + 1, f)
    }
}

/// First index `i >= from` with `s[i] == ' '`, or `s.len()` if none: the
/// end of a space-delimited token.
pub open spec fn token_end(s: Seq<char>, from: int) -> int {
    scan_stop(s, from, |c: char| c == ' ')
}

/// First index `i >= from` holding any whitespace, or `s.len()`.
pub open spec fn space_at(s: Seq<char>, from: int) -> int {
    scan_stop(s, from, |c: char| is_space(c))
}

/// First index `i >= from` holding a non-whitespace character, or `s.len()`.
pub open spec fn nonspace_at(s: Seq<char>, from: int) -> int {
    scan_stop(s, from, |c: char| !is_space(c))
}

/// The characterization of `token_end`.
pub proof fn lemma_token_end(s: Seq<char>, from: int)
    requires
        0 <= from <= s.len(),
    ensures
        from <= token_end(s, from) <= s.len(),
        forall|i: int| from <= i < token_end(s, from) ==> s[i] != ' ',
        token_end(s, from) < s.len() ==> s[token_end(s, from)] == ' ',
{
    lemma_scan_stop(s, from, |c: char| c == ' ');
}

/// The characterization of `space_at`.
pub proof fn lemma_space_at(s: Seq<char>, from: int)
    requires
        0 <= from <= s.len(),
    ensures
        from <= space_at(s, from) <= s.len(),
        forall|i: int| from <= i < space_at(s, from) ==> !is_space(s[i]),
        space_at(s, from) < s.len() ==> is_space(s[space_at(s, from)]),
{
    lemma_scan_stop(s, from, |c: char| is_space(c));
}

/// The characterization of `nonspace_at`.
pub proof fn lemma_nonspace_at(s: Seq<char>, from: int)
    requires
        0 <= from <= s.len(),
    ensures
        from <= nonspace_at(s, from) <= s.len(),
        forall|i: int| from <= i < nonspace_at(s, from) ==> is_space(s[i]),
        nonspace_at(s, from) < s.len() ==> !is_space(s[nonspace_at(s, from)]),
{
    lemma_scan_stop(s, from, |c: char| !is_space(c));
}

/// What `scan_stop` returns: a position in `[from, s.len()]`, with no
/// match strictly before it and a match at it unless it is the end.
pub proof fn lemma_scan_stop(s: Seq<char>, from: int, f: spec_fn(char) -> bool)
    requires
        0 <= from <= s.len(),
    ensures
        from <= scan_stop(s, from, f) <= s.len(),
        forall|i: int| from <= i < scan_stop(s, from, f) ==> !f(s[i]),
        scan_stop(s, from, f) < s.len() ==> f(s[scan_stop(s, from, f)]),
    decreases s.len() - from,
{
    if from < s.len() && !f(s[from]) {
        lemma_scan_stop(s, from + 1, f);
    }
}

/// Appends one character to a string.
///
/// Relies on `String::push`, which the standard library documents as
/// appending the given `char` to the end of the string.
#[verifier::external_body]
pub fn push_char(s: &mut String, c: char)
    ensures
        final(s)@ == old(s)@ + seq![c],
{
    s.push(c);
}

/// Character-wise string equality.
pub fn str_eq(a: &str, b: &str) -> (r: bool)
    ensures
        r == (a@ == b@),
{
    let a_len = a.unicode_len();
    let b_len = b.unicode_len();
    if a_len != b_len {
        return false;
    }
    let mut i: usize = 0;
    while i < a_len
        invariant
            a_len == a@.len(),
            b_len == b@.len(),
            a_len == b_len,
            0 <= i <= a_len,
            forall|j: int| 0 <= j < i ==> a@[j] == b@[j],
        decreases a_len - i,
    {
        if a.get_char(i) != b.get_char(i) {
            return false;
        }
        i = i + 1;
    }
    proof {
        assert(a@ =~= b@);
    }
    true
}

/// A single-pass scanner over a borrowed string.  The position counts
/// characters from the start of the text.
pub struct SimpleParser<'a> {
    text: &'a str,
    len: usize,
    pos: usize,
}

impl<'a> SimpleParser<'a> {
    /// The scanned text, as a sequence of characters.
    pub closed spec fn text_v(&self) -> Seq<char> {
        self.text@
    }

    /// The current position, in characters.
    pub closed spec fn pos_v(&self) -> int {
        self.pos as int
    }

    /// The cached length matches the text and the position stays inside it.
    pub closed spec fn wf(&self) -> bool {
        self.len == self.text@.len() && self.pos <= self.len
    }

    pub fn new(text: &'a str) -> (r: SimpleParser<'a>)
        ensures
            r.wf(),
            r.text_v() == text@,
            r.pos_v() == 0,
    {
        let len = text.unicode_len();
        SimpleParser { text, len, pos: 0 }
    }

    /// The next character, or a reason-free error at the end of the text.
    pub fn peek(&self) -> (r: Result<char, SimpleParseError>)
        requires
            self.wf(),
        ensures
            r is Ok <==> self.pos_v() < self.text_v().len(),
            r matches Ok(c) ==> c == self.text_v()[self.pos_v()],
            r matches Err(e) ==> e.index == self.pos_v() && e.index <= self.text_v().len()
                && e.reason is None,
    {
        if self.pos < self.len {
            Ok(self.text.get_char(self.pos))
        } else {
            Err(self.error())
        }
    }

    /// The next `size` characters without consuming them.
    pub fn peek_str(&self, size: usize) -> (r: Result<&'a str, SimpleParseError>)
        requires
            self.wf(),
        ensures
            r is Ok <==> self.pos_v() + size <= self.text_v().len(),
            r matches Ok(s) ==> s@ == self.text_v().subrange(self.pos_v(), self.pos_v() + size),
            r matches Err(e) ==> e.index == self.pos_v() && e.index <= self.text_v().len()
                && e.reason is None,
    {
        if size <= self.len - self.pos {
            Ok(self.text.substring_char(self.pos, self.pos + size))
        } else {
            Err(self.error())
        }
    }

    /// Consumes characters until `f` holds (or the text ends) and returns
    /// what was consumed.
    pub fn take_until<F: Fn(char) -> bool>(&mut self, f: F) -> (r: &'a str)
        requires
            old(self).wf(),
            forall|c: char| #[trigger] f.requires((c,)),
        ensures
            final(self).wf(),
            final(self).text_v() == old(self).text_v(),
            old(self).pos_v() <= final(self).pos_v() <= final(self).text_v().len(),
            r@ == final(self).text_v().subrange(old(self).pos_v(), final(self).pos_v()),
            forall|i: int| old(self).pos_v() <= i < final(self).pos_v() ==> f.ensures(
                (final(self).text_v()[i],),
                false,
            ),
            final(self).pos_v() < final(self).text_v().len() ==> f.ensures(
                (final(self).text_v()[final(self).pos_v()],),
                true,
            ),
    {
        let start = self.pos;
        loop
            invariant
                self.wf(),
                self.text == old(self).text,
                self.len == old(self).len,
                start <= self.pos <= self.len,
                forall|i: int| start <= i < self.pos ==> f.ensures((self.text@[i],), false),
                forall|c: char| #[trigger] f.requires((c,)),
            ensures
                self.wf(),
                self.text == old(self).text,
                self.len == old(self).len,
                start <= self.pos <= self.len,
                forall|i: int| start <= i < self.pos ==> f.ensures((self.text@[i],), false),
                self.pos < self.len ==> f.ensures((self.text@[self.pos as int],), true),
            decreases self.len - self.pos,
        {
            if self.pos >= self.len {
                break;
            }
            let c = self.text.get_char(self.pos);
            if f(c) {
                break;
            }
            self.pos = self.pos + 1;
        }
        self.text.substring_char(start, self.pos)
    }

    /// Skips leading whitespace.
    pub fn skip_whitespace(&mut self)
        requires
            old(self).wf(),
        ensures
            final(self).wf(),
            final(self).text_v() == old(self).text_v(),
            final(self).pos_v() == nonspace_at(old(self).text_v(), old(self).pos_v()),
    {
        proof {
            lemma_scan_stop(self.text@, self.pos as int, |c: char| !is_space(c));
        }
        let ghost stop = scan_stop(self.text@, self.pos as int, |c: char| !is_space(c));
        loop
            invariant
                self.wf(),
                self.text == old(self).text,
                self.len == old(self).len,
                old(self).pos_v() <= self.pos <= stop,
                stop == scan_stop(self.text@, old(self).pos_v(), |c: char| !is_space(c)),
                stop <= self.len,
                forall|i: int| old(self).pos_v() <= i < stop ==> is_space(self.text@[i]),
                stop < self.len ==> !is_space(self.text@[stop as int]),
            ensures
                self.wf(),
                self.text == old(self).text,
                self.len == old(self).len,
                self.pos == stop,
            decreases self.len - self.pos,
        {
            if self.pos >= self.len {
                break;
            }
            let c = self.text.get_char(self.pos);
            if !(c == ' ' || c == '\t' || c == '\r' || c == '\n') {
                break;
            }
            self.pos = self.pos + 1;
        }
    }

    /// Consumes exactly `amount` characters and returns them.
    pub fn skip(&mut self, amount: usize) -> (r: &'a str)
        requires
            old(self).wf(),
            old(self).pos_v() + amount <= old(self).text_v().len(),
        ensures
            final(self).wf(),
            final(self).text_v() == old(self).text_v(),
            final(self).pos_v() == old(self).pos_v() + amount,
            r@ == old(self).text_v().subrange(old(self).pos_v(), old(self).pos_v() + amount),
    {
        let start = self.pos;
        self.pos = self.pos + amount;
        self.text.substring_char(start, self.pos)
    }

    /// Consumes the expected character, or fails without moving.
    pub fn expect(&mut self, expected: char) -> (r: Result<(), SimpleParseError>)
        requires
            old(self).wf(),
        ensures
            final(self).wf(),
            final(self).text_v() == old(self).text_v(),
            r is Ok <==> old(self).pos_v() < old(self).text_v().len() && old(self).text_v()[old(
                self,
            ).pos_v()] == expected,
            r is Ok ==> final(self).pos_v() == old(self).pos_v() + 1,
            r matches Err(e) ==> final(self).pos_v() == old(self).pos_v() && e.index == old(
                self,
            ).pos_v() && e.index <= old(self).text_v().len() && e.reason is Some,
    {
        if self.pos < self.len {
            let c = self.text.get_char(self.pos);
            if c == expected {
                self.pos = self.pos + 1;
                return Ok(());
            }
        }
        Err(
            SimpleParseError {
                index: self.pos,
                reason: Some(String::from_str("unexpected character")),
            },
        )
    }

    /// Consumes the expected literal, or fails without moving.
    pub fn expect_str(&mut self, s: &str) -> (r: Result<(), SimpleParseError>)
        requires
            old(self).wf(),
        ensures
            final(self).wf(),
            final(self).text_v() == old(self).text_v(),
            r is Ok <==> old(self).pos_v() + s@.len() <= old(self).text_v().len() && old(
                self,
            ).text_v().subrange(old(self).pos_v(), old(self).pos_v() + s@.len()) == s@,
            r is Ok ==> final(self).pos_v() == old(self).pos_v() + s@.len(),
            r matches Err(e) ==> final(self).pos_v() == old(self).pos_v() && e.index == old(
                self,
            ).pos_v() && e.index <= old(self).text_v().len() && e.reason is None,
    {
        let s_len = s.unicode_len();
        if s_len > self.len - self.pos {
            return Err(self.error());
        }
        let mut i: usize = 0;
        while i < s_len
            invariant
                self.wf(),
                s_len == s@.len(),
                self.pos + s_len <= self.len,
                0 <= i <= s_len,
                forall|j: int| 0 <= j < i ==> self.text@[self.pos + j] == s@[j],
            decreases s_len - i,
        {
            if self.text.get_char(self.pos + i) != s.get_char(i) {
                return Err(self.error());
            }
            i = i + 1;
        }
        proof {
            assert(self.text@.subrange(self.pos as int, self.pos + s@.len()) =~= s@);
        }
        self.pos = self.pos + s_len;
        Ok(())
    }

    /// Consumes up to the next space and checks that the token is a valid
    /// internal name, that is, one free of `.` separators.
    pub fn parse_internal_name(&mut self) -> (r: Result<&'a str, SimpleParseError>)
        requires
            old(self).wf(),
        ensures
            final(self).wf(),
            final(self).text_v() == old(self).text_v(),
            final(self).pos_v() == token_end(old(self).text_v(), old(self).pos_v()),
            ({
                let seg = old(self).text_v().subrange(old(self).pos_v(), final(self).pos_v());
                &&& (r is Ok <==> forall|i: int| 0 <= i < seg.len() ==> seg[i] != '.')
                &&& (r matches Ok(s) ==> s@ == seg)
                &&& (r matches Err(e) ==> old(self).pos_v() <= e.index < final(self).pos_v() && old(
                    self,
                ).text_v()[e.index as int] == '.' && e.reason is Some && (forall|j: int|
                    old(self).pos_v() <= j < e.index ==> old(self).text_v()[j] != '.'))
            }),
    {
        let ghost old_pos = self.pos as int;
        let start = self.pos;
        let stops_at_space = (|c: char| -> (b: bool) ensures b == (c == ' ') { c == ' ' });
        let s = self.take_until(stops_at_space);
        proof {
            lemma_scan_stop(self.text@, old_pos, |c: char| c == ' ');
            assert(self.pos_v() == scan_stop(self.text@, old_pos, |c: char| c == ' ')) by {
                let stop = scan_stop(self.text@, old_pos, |c: char| c == ' ');
                if self.pos_v() < stop {
                    assert(self.text@[self.pos_v()] == ' ');
                }
                if stop < self.pos_v() {
                    assert(self.text@[stop] != ' ');
                }
            }
        }
        // reject a token holding a dot, reporting the first one
        let s_len = self.pos - start;
        let mut i: usize = 0;
        while i < s_len
            invariant
                self.wf(),
                self.text_v() == old(self).text_v(),
                start == old(self).pos_v(),
                start + s_len == self.pos,
                self.pos_v() == token_end(old(self).text_v(), old(self).pos_v()),
                self.pos <= self.len,
                s@ == self.text@.subrange(start as int, self.pos as int),
                s@.len() == s_len,
                0 <= i <= s_len,
                forall|j: int| 0 <= j < i ==> s@[j] != '.',
            decreases s_len - i,
        {
            if s.get_char(i) == '.' {
                proof {
                    assert forall|j: int| old(self).pos_v() <= j < start + i implies old(
                        self,
                    ).text_v()[j] != '.' by {
                        assert(s@[j - start] != '.');
                    }
                }
                return Err(
                    SimpleParseError {
                        index: start + i,
                        reason: Some(String::from_str("invalid internal name")),
                    },
                );
            }
            i = i + 1;
        }
        Ok(s)
    }

    /// A scanned text always fits the machine's index range.
    pub proof fn lemma_text_len(&self)
        requires
            self.wf(),
        ensures
            self.text_v().len() <= usize::MAX,
    {
    }

    /// The position always lies inside the text.
    pub proof fn lemma_pos_bounds(&self)
        requires
            self.wf(),
        ensures
            0 <= self.pos_v() <= self.text_v().len(),
    {
    }

    /// A reason-free error at the current position.
    pub fn error(&self) -> (r: SimpleParseError)
        requires
            self.wf(),
        ensures
            r.index == self.pos_v(),
            r.index <= self.text_v().len(),
            r.reason is None,
    {
        SimpleParseError { index: self.pos, reason: None }
    }

    pub fn current_index(&self) -> (r: usize)
        ensures
            r == self.pos_v(),
    {
        self.pos
    }

    /// The not yet consumed tail of the text.
    pub fn remaining(&self) -> (r: &'a str)
        requires
            self.wf(),
        ensures
            r@ == self.text_v().subrange(self.pos_v(), self.text_v().len() as int),
    {
        self.text.substring_char(self.pos, self.len)
    }

    /// The whole scanned text.
    pub fn original(&self) -> (r: &'a str)
        ensures
            r@ == self.text_v(),
    {
        self.text
    }

    pub fn is_finished(&self) -> (r: bool)
        requires
            self.wf(),
        ensures
            r == (self.pos_v() == self.text_v().len()),
    {
        self.pos >= self.len
    }

    /// Succeeds exactly when the whole text has been consumed.
    pub fn ensure_finished(&self) -> (r: Result<(), SimpleParseError>)
        requires
            self.wf(),
        ensures
            r is Ok <==> self.pos_v() == self.text_v().len(),
            r matches Err(e) ==> e.index == self.pos_v() && e.index <= self.text_v().len()
                && e.reason is None,
    {
        if self.pos >= self.len {
            Ok(())
        } else {
            Err(self.error())
        }
    }

    /// Runs a grammar rule at the current position.
    pub fn parse<T: SimpleParse>(&mut self) -> (r: Result<T, SimpleParseError>)
        requires
            old(self).wf(),
        ensures
            final(self).wf(),
            final(self).text_v() == old(self).text_v(),
            old(self).pos_v() <= final(self).pos_v(),
    {
        T::parse(self)
    }
}

/// A value with a grammar rule tying it to the scanner.
pub trait SimpleParse: Sized {
    fn parse(parser: &mut SimpleParser) -> (r: Result<Self, SimpleParseError>)
        requires
            old(parser).wf(),
        ensures
            final(parser).wf(),
            final(parser).text_v() == old(parser).text_v(),
            old(parser).pos_v() <= final(parser).pos_v(),
            r matches Err(e) ==> e.index <= old(parser).text_v().len(),
    ;
}

/// Runs a grammar rule and then checks the text was fully consumed.
pub fn parse_fully<T: SimpleParse>(parser: &mut SimpleParser) -> (r: Result<T, SimpleParseError>)
    requires
        old(parser).wf(),
    ensures
        final(parser).wf(),
        final(parser).text_v() == old(parser).text_v(),
        r is Ok ==> final(parser).pos_v() == final(parser).text_v().len(),
        r matches Err(e) ==> e.index <= old(parser).text_v().len(),
{
    let value = T::parse(parser)?;
    let check = parser.ensure_finished();
    match check {
        Ok(_) => Ok(value),
        Err(e) => Err(e),
    }
}

/// Parses a whole string as one value of the grammar rule.
pub fn parse_text<T: SimpleParse>(text: &str) -> (r: Result<T, SimpleParseError>) {
    let mut parser = SimpleParser::new(text);
    let value: Result<T, SimpleParseError> = parse_fully(&mut parser);
    value
}

} // verus!
