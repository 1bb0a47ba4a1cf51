//! The compact dialect: one space-separated line per entry, with the
//! member kind told apart by the token count alone.

use vstd::prelude::*;
use vstd::string::StrSliceExecFns;
use vstd::string::StringExecFns;

use crate::descriptor::FieldData;
use crate::descriptor::MethodData;
use crate::descriptor::MethodSignature;
use crate::format::count_tokens;
use crate::format::name_ok;
use crate::format::parse_ref_token;
use crate::format::split_lines;
use crate::format::split_lines_v;
use crate::format::ws_tokens;
use crate::format::MappingsParseError;
use crate::mappings::frozen::FrozenMappings;
use crate::mappings::simple::SimpleMappings;
use crate::model::ref_desc_of;
use crate::model::ref_internal_name;
use crate::model::resolve_field_entries;
use crate::model::resolve_method_entries;
use crate::model::sig_render;
use crate::model::take_sig;
use crate::model::tbl_insert;
use crate::model::ClassesV;
use crate::model::FieldNamesV;
use crate::model::FieldsV;
use crate::model::MethodNamesV;
use crate::model::MethodsV;
use crate::utils::lemma_nonspace_at;
use crate::utils::lemma_token_end;
use crate::utils::nonspace_at;
use crate::utils::token_end;
use crate::utils::SimpleParse;
use crate::utils::SimpleParseError;
use crate::utils::SimpleParser;

verus! {

/// The builder state a dialect's lines act on.
pub type BuilderV = (ClassesV, FieldNamesV, MethodNamesV);

/// One compact line parsed up to its last token: the new builder state
/// and the position after the last token, or nothing on a malformed
/// line.  A blank or `#` comment line leaves the state alone.
pub open spec fn csrg_line_parsed(st: BuilderV, s: Seq<char>) -> Option<(BuilderV, int)> {
    let p0 = nonspace_at(s, 0);
    if p0 >= s.len() || s[p0] == '#' {
        Some((st, s.len() as int))
    } else {
        let cnt = ws_tokens(s, p0, false);
        let t1 = token_end(s, p0);
        let tok1 = s.subrange(p0, t1);
        if cnt == 2 {
            if !name_ok(tok1) || !(t1 < s.len() && s[t1] == ' ') {
                None
            } else {
                let t2 = token_end(s, t1 + 1);
                let tok2 = s.subrange(t1 + 1, t2);
                if !name_ok(tok2) {
                    None
                } else {
                    Some(
                        (
                            (
                                tbl_insert(st.0, ref_desc_of(tok1), ref_desc_of(tok2)),
                                st.1,
                                st.2,
                            ),
                            t2,
                        ),
                    )
                }
            }
        } else if cnt == 3 {
            if !name_ok(tok1) || !(t1 < s.len() && s[t1] == ' ') {
                None
            } else {
                let t2 = token_end(s, t1 + 1);
                let fname = s.subrange(t1 + 1, t2);
                if !(t2 < s.len() && s[t2] == ' ') {
                    None
                } else {
                    let t3 = token_end(s, t2 + 1);
                    let newname = s.subrange(t2 + 1, t3);
                    Some(
                        (
                            (
                                st.0,
                                tbl_insert(st.1, (ref_desc_of(tok1), fname), newname),
                                st.2,
                            ),
                            t3,
                        ),
                    )
                }
            }
        } else if cnt == 4 {
            if !name_ok(tok1) || !(t1 < s.len() && s[t1] == ' ') {
                None
            } else {
                let t2 = token_end(s, t1 + 1);
                let mname = s.subrange(t1 + 1, t2);
                if !(t2 < s.len() && s[t2] == ' ') {
                    None
                } else {
                    match take_sig(s, t2 + 1) {
                        None => None,
                        Some((ps, ret, e)) => if !(e < s.len() && s[e] == ' ') {
                            None
                        } else {
                            let t4 = token_end(s, e + 1);
                            let newname = s.subrange(e + 1, t4);
                            Some(
                                (
                                    (
                                        st.0,
                                        st.1,
                                        tbl_insert(
                                            st.2,
                                            (ref_desc_of(tok1), mname, sig_render(ps, ret)),
                                            newname,
                                        ),
                                    ),
                                    t4,
                                ),
                            )
                        },
                    }
                }
            }
        } else {
            None
        }
    }
}

/// One compact line fully processed: the parse must consume the whole
/// line but for trailing whitespace.
pub open spec fn csrg_line_v(st: BuilderV, s: Seq<char>) -> Option<BuilderV> {
    match csrg_line_parsed(st, s) {
        Some((st2, p)) => if nonspace_at(s, p) == s.len() {
            Some(st2)
        } else {
            None
        },
        None => None,
    }
}

/// A whole compact text: each line processed in order.
pub open spec fn csrg_run(st: BuilderV, lines: Seq<Seq<char>>) -> Option<BuilderV>
    decreases lines.len(),
{
    if lines.len() == 0 {
        Some(st)
    } else {
        match csrg_run(st, lines.drop_last()) {
            Some(st2) => csrg_line_v(st2, lines.last()),
            None => None,
        }
    }
}

/// The empty builder state.
pub open spec fn empty_builder() -> BuilderV {
    (
        Seq::<(Seq<char>, Seq<char>)>::empty(),
        Seq::<((Seq<char>, Seq<char>), Seq<char>)>::empty(),
        Seq::<((Seq<char>, Seq<char>, Seq<char>), Seq<char>)>::empty(),
    )
}

/// Streams compact lines into a builder.
pub struct CompactSrgLineProcessor {
    result: SimpleMappings,
}

impl CompactSrgLineProcessor {
    /// The builder state so far.
    pub closed spec fn st_v(&self) -> BuilderV {
        (self.result.classes_v(), self.result.fields_v(), self.result.methods_v())
    }

    pub closed spec fn wf(&self) -> bool {
        self.result.wf()
    }

    pub fn new() -> (r: CompactSrgLineProcessor)
        ensures
            r.wf(),
            r.st_v() == empty_builder(),
    {
        CompactSrgLineProcessor { result: SimpleMappings::new() }
    }

    /// Processes one line against the scanner.
    fn parse_line(&mut self, parser: &mut SimpleParser) -> (r: Result<(), SimpleParseError>)
        requires
            old(self).wf(),
            old(parser).wf(),
            old(parser).pos_v() == 0,
        ensures
            final(self).wf(),
            r is Ok <==> csrg_line_v(old(self).st_v(), old(parser).text_v()) is Some,
            r is Ok ==> final(self).st_v() == csrg_line_v(
                old(self).st_v(),
                old(parser).text_v(),
            )->Some_0,
            r is Err ==> final(self).st_v() == (match csrg_line_parsed(
                old(self).st_v(),
                old(parser).text_v(),
            ) {
                Some((st2, p)) => st2,
                None => old(self).st_v(),
            }),
            r matches Err(e) ==> e.index <= old(parser).text_v().len(),
            ({
                let s = old(parser).text_v();
                let p0 = nonspace_at(s, 0);
                let cnt = ws_tokens(s, p0, false);
                let t1 = token_end(s, p0);
                (p0 < s.len() && s[p0] != '#' && (cnt == 2 || cnt == 3 || cnt == 4) && (exists|
                    i: int,
                |
                    p0 <= i < t1 && s[i] == '.')) ==> (r matches Err(e) && {
                    &&& e.reason is Some
                    &&& p0 <= e.index < t1
                    &&& s[e.index as int] == '.'
                    &&& forall|j: int| p0 <= j < e.index ==> s[j] != '.'
                })
            }),
    {
        let ghost s = old(parser).text_v();
        let ghost st0 = old(self).st_v();
        proof {
            lemma_nonspace_at(s, 0);
        }
        parser.skip_whitespace();
        if parser.is_finished() {
            return Ok(());
        }
        let c = match parser.peek() {
            Ok(c) => c,
            Err(e) => {
                return Err(e);
            },
        };
        if c == '#' {
            return Ok(());
        }
        let ghost p0 = parser.pos_v();
        let remaining = parser.remaining();
        let cnt = count_tokens(remaining);
        proof {
            crate::format::lemma_ws_tokens_shift(s, p0, 0, false);
            assert(remaining@ =~= s.skip(p0));
            lemma_token_end(s, p0);
        }
        if cnt == 2 {
            let original = match parse_ref_token(parser) {
                Ok(t) => t,
                Err(e) => {
                    return Err(e);
                },
            };
            proof {
                assert forall|i: int| p0 <= i < parser.pos_v() implies s[i] != '.' by {
                    assert(s.subrange(p0, parser.pos_v())[i - p0] != '.');
                }
            }
            match parser.expect(' ') {
                Ok(_) => (),
                Err(e) => {
                    return Err(e);
                },
            }
            let renamed = match parse_ref_token(parser) {
                Ok(t) => t,
                Err(e) => {
                    return Err(e);
                },
            };
            self.result.set_remapped_class(original, renamed);
        } else if cnt == 3 {
            let declaring = match parse_ref_token(parser) {
                Ok(t) => t,
                Err(e) => {
                    return Err(e);
                },
            };
            proof {
                assert forall|i: int| p0 <= i < parser.pos_v() implies s[i] != '.' by {
                    assert(s.subrange(p0, parser.pos_v())[i - p0] != '.');
                }
            }
            match parser.expect(' ') {
                Ok(_) => (),
                Err(e) => {
                    return Err(e);
                },
            }
            let not_space = (|ch: char| -> (b: bool) ensures b == (ch == ' ') { ch == ' ' });
            let ghost pn = parser.pos_v();
            let original_name = parser.take_until(not_space);
            proof {
                lemma_token_end(s, pn);
                assert(parser.pos_v() == token_end(s, pn)) by {
                    let stop = token_end(s, pn);
                    if parser.pos_v() < stop {
                        assert(s[parser.pos_v()] == ' ');
                    }
                    if stop < parser.pos_v() {
                        assert(s[stop] != ' ');
                    }
                }
            }
            match parser.expect(' ') {
                Ok(_) => (),
                Err(e) => {
                    return Err(e);
                },
            }
            let ghost pr = parser.pos_v();
            let renamed_name = parser.take_until(not_space);
            proof {
                lemma_token_end(s, pr);
                assert(parser.pos_v() == token_end(s, pr)) by {
                    let stop = token_end(s, pr);
                    if parser.pos_v() < stop {
                        assert(s[parser.pos_v()] == ' ');
                    }
                    if stop < parser.pos_v() {
                        assert(s[stop] != ' ');
                    }
                }
            }
            let original = FieldData::new(String::from_str(original_name), declaring);
            self.result.set_field_name(original, String::from_str(renamed_name));
        } else if cnt == 4 {
            let declaring = match parse_ref_token(parser) {
                Ok(t) => t,
                Err(e) => {
                    return Err(e);
                },
            };
            proof {
                assert forall|i: int| p0 <= i < parser.pos_v() implies s[i] != '.' by {
                    assert(s.subrange(p0, parser.pos_v())[i - p0] != '.');
                }
            }
            match parser.expect(' ') {
                Ok(_) => (),
                Err(e) => {
                    return Err(e);
                },
            }
            let not_space = (|ch: char| -> (b: bool) ensures b == (ch == ' ') { ch == ' ' });
            let ghost pn = parser.pos_v();
            let original_name = parser.take_until(not_space);
            proof {
                lemma_token_end(s, pn);
                assert(parser.pos_v() == token_end(s, pn)) by {
                    let stop = token_end(s, pn);
                    if parser.pos_v() < stop {
                        assert(s[parser.pos_v()] == ' ');
                    }
                    if stop < parser.pos_v() {
                        assert(s[stop] != ' ');
                    }
                }
            }
            match parser.expect(' ') {
                Ok(_) => (),
                Err(e) => {
                    return Err(e);
                },
            }
            let ghost ps_pos = parser.pos_v();
            let signature = match MethodSignature::parse(parser) {
                Ok(t) => t,
                Err(e) => {
                    return Err(e);
                },
            };
            proof {
                parser.lemma_pos_bounds();
                crate::model::lemma_take_sig(s, ps_pos);
            }
            match parser.expect(' ') {
                Ok(_) => (),
                Err(e) => {
                    return Err(e);
                },
            }
            let ghost pr = parser.pos_v();
            let renamed_name = parser.take_until(not_space);
            proof {
                lemma_token_end(s, pr);
                assert(parser.pos_v() == token_end(s, pr)) by {
                    let stop = token_end(s, pr);
                    if parser.pos_v() < stop {
                        assert(s[parser.pos_v()] == ' ');
                    }
                    if stop < parser.pos_v() {
                        assert(s[stop] != ' ');
                    }
                }
            }
            let original = MethodData::new(String::from_str(original_name), declaring, signature);
            self.result.set_method_name(original, String::from_str(renamed_name));
        } else {
            return Err(parser.error());
        }
        let ghost pe = parser.pos_v();
        proof {
            parser.lemma_pos_bounds();
            lemma_nonspace_at(s, pe);
        }
        parser.skip_whitespace();
        match parser.ensure_finished() {
            Ok(_) => Ok(()),
            Err(e) => Err(e),
        }
    }

    /// Processes one line, tagging any scan failure with the line text.
    pub fn process_line(&mut self, s: &str) -> (r: Result<(), MappingsParseError>)
        requires
            old(self).wf(),
        ensures
            final(self).wf(),
            r is Ok <==> csrg_line_v(old(self).st_v(), s@) is Some,
            r is Ok ==> final(self).st_v() == csrg_line_v(old(self).st_v(), s@)->Some_0,
            r matches Err(MappingsParseError::InvalidLine { line, line_number, index, .. })
                ==> line@ == s@ && line_number == 0 && index <= s@.len(),
            ({
                let p0 = nonspace_at(s@, 0);
                let cnt = ws_tokens(s@, p0, false);
                let t1 = token_end(s@, p0);
                (p0 < s@.len() && s@[p0] != '#' && (cnt == 2 || cnt == 3 || cnt == 4) && (exists|
                    i: int,
                |
                    p0 <= i < t1 && s@[i] == '.')) ==> (r matches Err(
                    MappingsParseError::InvalidLine { index, reason, .. },
                ) && {
                    &&& reason is Some
                    &&& p0 <= index < t1
                    &&& s@[index as int] == '.'
                    &&& forall|j: int| p0 <= j < index ==> s@[j] != '.'
                })
            }),
    {
        let mut parser = SimpleParser::new(s);
        match self.parse_line(&mut parser) {
            Ok(_) => Ok(()),
            Err(cause) => Err(
                MappingsParseError::InvalidLine {
                    index: cause.index,
                    line_number: 0,
                    line: String::from_str(s),
                    reason: cause.reason,
                },
            ),
        }
    }

    /// Freezes what was collected.
    pub fn finish(self) -> (r: Result<FrozenMappings, MappingsParseError>)
        requires
            self.wf(),
        ensures
            r matches Ok(m) ==> {
                &&& m.wf()
                &&& m.classes_v() == self.st_v().0
                &&& m.fields_v() == resolve_field_entries(self.st_v().0, self.st_v().1)
                &&& m.methods_v() == resolve_method_entries(self.st_v().0, self.st_v().2)
            },
            r is Ok,
    {
        Ok(self.result.frozen())
    }
}

/// The compact mappings dialect.
pub struct CompactSrgMappingsFormat;

/// The frozen result of a successful compact parse of these lines.
pub open spec fn csrg_parsed_mappings(lines: Seq<Seq<char>>) -> Option<
    (ClassesV, FieldsV, MethodsV),
> {
    match csrg_run(empty_builder(), lines) {
        Some(st) => Some(
            (
                st.0,
                resolve_field_entries(st.0, st.1),
                resolve_method_entries(st.0, st.2),
            ),
        ),
        None => None,
    }
}

impl CompactSrgMappingsFormat {
    pub fn processor() -> (r: CompactSrgLineProcessor)
        ensures
            r.wf(),
            r.st_v() == empty_builder(),
    {
        CompactSrgLineProcessor::new()
    }

    /// Parses a sequence of compact lines into a frozen mapping.
    pub fn parse_lines(lines: &Vec<String>) -> (r: Result<FrozenMappings, MappingsParseError>)
        ensures
            r is Ok <==> csrg_parsed_mappings(lines@.map_values(|l: String| l@)) is Some,
            r matches Ok(m) ==> {
                &&& m.wf()
                &&& Some((m.classes_v(), m.fields_v(), m.methods_v())) == csrg_parsed_mappings(
                    lines@.map_values(|l: String| l@),
                )
            },
            r matches Err(MappingsParseError::InvalidLine { line, line_number, index, .. })
                ==> exists|i: int|
                #![trigger lines@[i]]
                {
                    let lvs = lines@.map_values(|l: String| l@);
                    &&& 0 <= i < lvs.len()
                    &&& csrg_run(empty_builder(), lvs.take(i)) is Some
                    &&& csrg_line_v(csrg_run(empty_builder(), lvs.take(i))->Some_0, lvs[i]) is None
                    &&& line@ == lvs[i]
                    &&& line_number == i + 1
                    &&& index <= line@.len()
                },
    {
        let ghost lvs = lines@.map_values(|l: String| l@);
        let mut processor = CompactSrgLineProcessor::new();
        let n = lines.len();
        let mut i: usize = 0;
        while i < n
            invariant
                processor.wf(),
                lvs == lines@.map_values(|l: String| l@),
                n == lines@.len(),
                0 <= i <= n,
                csrg_run(empty_builder(), lvs.take(i as int)) == Some(processor.st_v()),
            decreases n - i,
        {
            proof {
                assert(lvs.take(i + 1).drop_last() =~= lvs.take(i as int));
                assert(lvs.take(i + 1).last() == lvs[i as int]);
            }
            match processor.process_line(lines[i].as_str()) {
                Ok(_) => (),
                Err(e) => {
                    proof {
                        lemma_csrg_run_extends_none(lvs, i as int);
                    }
                    match e {
                        MappingsParseError::InvalidLine { line, index, reason, .. } => {
                            return Err(
                                MappingsParseError::InvalidLine {
                                    line,
                                    line_number: i + 1,
                                    index,
                                    reason,
                                },
                            );
                        },
                    }
                },
            }
            i = i + 1;
        }
        proof {
            assert(lvs.take(n as int) =~= lvs);
        }
        processor.finish()
    }

    /// Parses a whole compact text.
    pub fn parse_text(text: &str) -> (r: Result<FrozenMappings, MappingsParseError>)
        ensures
            r is Ok <==> csrg_parsed_mappings(split_lines_v(text@)) is Some,
            r matches Ok(m) ==> {
                &&& m.wf()
                &&& Some((m.classes_v(), m.fields_v(), m.methods_v())) == csrg_parsed_mappings(
                    split_lines_v(text@),
                )
            },
            r matches Err(MappingsParseError::InvalidLine { line, line_number, index, .. })
                ==> exists|i: int|
                #![trigger split_lines_v(text@)[i]]
                {
                    let lvs = split_lines_v(text@);
                    &&& 0 <= i < lvs.len()
                    &&& csrg_run(empty_builder(), lvs.take(i)) is Some
                    &&& csrg_line_v(csrg_run(empty_builder(), lvs.take(i))->Some_0, lvs[i]) is None
                    &&& line@ == lvs[i]
                    &&& line_number == i + 1
                    &&& index <= line@.len()
                },
    {
        let lines = split_lines(text);
        CompactSrgMappingsFormat::parse_lines(&lines)
    }

    /// Writes the mapping in the compact dialect, one entry per line.
    pub fn write_string(mappings: &FrozenMappings) -> (r: String)
        requires
            mappings.wf(),
        ensures
            r@ == csrg_render(mappings.classes_v(), mappings.fields_v(), mappings.methods_v()),
    {
        let mut out = String::new();
        let n = mappings.class_count();
        let mut i: usize = 0;
        while i < n
            invariant
                mappings.wf(),
                n == mappings.classes_v().len(),
                0 <= i <= n,
                out@ == csrg_class_lines(mappings.classes_v().take(i as int)),
            decreases n - i,
        {
            let e = mappings.class_at(i);
            proof {
                assert(mappings.classes_v().take(i + 1).drop_last() =~= mappings.classes_v().take(
                    i as int,
                ));
            }
            out.append(e.0.internal_name().as_str());
            crate::utils::push_char(&mut out, ' ');
            out.append(e.1.internal_name().as_str());
            crate::utils::push_char(&mut out, '\n');
            i = i + 1;
        }
        proof {
            assert(mappings.classes_v().take(n as int) =~= mappings.classes_v());
        }
        let ghost base = out@;
        let n = mappings.field_count();
        let mut i: usize = 0;
        while i < n
            invariant
                mappings.wf(),
                n == mappings.fields_v().len(),
                0 <= i <= n,
                out@ == base + csrg_field_lines(mappings.fields_v().take(i as int)),
                base == csrg_class_lines(mappings.classes_v()),
            decreases n - i,
        {
            let e = mappings.field_at(i);
            proof {
                assert(mappings.fields_v().take(i + 1).drop_last() =~= mappings.fields_v().take(
                    i as int,
                ));
            }
            out.append(e.0.declaring_type().internal_name().as_str());
            crate::utils::push_char(&mut out, ' ');
            out.append(e.0.name());
            crate::utils::push_char(&mut out, ' ');
            out.append(e.1.name());
            crate::utils::push_char(&mut out, '\n');
            i = i + 1;
        }
        proof {
            assert(mappings.fields_v().take(n as int) =~= mappings.fields_v());
        }
        let ghost base2 = out@;
        let n = mappings.method_count();
        let mut i: usize = 0;
        while i < n
            invariant
                mappings.wf(),
                n == mappings.methods_v().len(),
                0 <= i <= n,
                out@ == base2 + csrg_method_lines(mappings.methods_v().take(i as int)),
                base2 == csrg_class_lines(mappings.classes_v()) + csrg_field_lines(
                    mappings.fields_v(),
                ),
            decreases n - i,
        {
            let e = mappings.method_at(i);
            proof {
                assert(mappings.methods_v().take(i + 1).drop_last() =~= mappings.methods_v().take(
                    i as int,
                ));
            }
            out.append(e.0.declaring_type().internal_name().as_str());
            crate::utils::push_char(&mut out, ' ');
            out.append(e.0.name());
            crate::utils::push_char(&mut out, ' ');
            out.append(e.0.signature().descriptor_as_str());
            crate::utils::push_char(&mut out, ' ');
            out.append(e.1.name());
            crate::utils::push_char(&mut out, '\n');
            i = i + 1;
        }
        proof {
            assert(mappings.methods_v().take(n as int) =~= mappings.methods_v());
        }
        out
    }

    /// Writes the mapping and splits it into lines.
    pub fn write_line_array(mappings: &FrozenMappings) -> (r: Vec<String>)
        requires
            mappings.wf(),
        ensures
            r@.map_values(|l: String| l@) == split_lines_v(
                csrg_render(mappings.classes_v(), mappings.fields_v(), mappings.methods_v()),
            ),
    {
        let text = CompactSrgMappingsFormat::write_string(mappings);
        split_lines(text.as_str())
    }
}

/// The compact class lines, in table order.
pub open spec fn csrg_class_lines(c: ClassesV) -> Seq<char>
    decreases c.len(),
{
    if c.len() == 0 {
        Seq::<char>::empty()
    } else {
        csrg_class_lines(c.drop_last()) + ref_internal_name(c.last().0) + seq![' ']
            + ref_internal_name(c.last().1) + seq!['\n']
    }
}

/// The compact field lines.
pub open spec fn csrg_field_lines(f: FieldsV) -> Seq<char>
    decreases f.len(),
{
    if f.len() == 0 {
        Seq::<char>::empty()
    } else {
        csrg_field_lines(f.drop_last()) + ref_internal_name(f.last().0.0) + seq![' ']
            + f.last().0.1 + seq![' '] + f.last().1.1 + seq!['\n']
    }
}

/// The compact method lines.
pub open spec fn csrg_method_lines(m: MethodsV) -> Seq<char>
    decreases m.len(),
{
    if m.len() == 0 {
        Seq::<char>::empty()
    } else {
        csrg_method_lines(m.drop_last()) + ref_internal_name(m.last().0.0) + seq![' ']
            + m.last().0.1 + seq![' '] + m.last().0.2 + seq![' '] + m.last().1.1 + seq!['\n']
    }
}

/// The whole compact text: classes, then fields, then methods.
pub open spec fn csrg_render(c: ClassesV, f: FieldsV, m: MethodsV) -> Seq<char> {
    csrg_class_lines(c) + csrg_field_lines(f) + csrg_method_lines(m)
}

/// Once a prefix of the lines fails, the whole run fails.
pub proof fn lemma_csrg_run_extends_none(lines: Seq<Seq<char>>, i: int)
    requires
        0 <= i < lines.len(),
        csrg_run(empty_builder(), lines.take(i + 1)) is None,
    ensures
        csrg_run(empty_builder(), lines) is None,
    decreases lines.len() - i,
{
    if i + 1 < lines.len() {
        assert(lines.take(i + 2).drop_last() =~= lines.take(i + 1));
        lemma_csrg_run_extends_none(lines, i + 1);
    } else {
        assert(lines.take(i + 1) =~= lines);
    }
}

} // verus!
