//! The tab-indented dialect: a class line opens a block and its members
//! follow on tab-indented lines; the writer groups entries per class.

use vstd::prelude::*;
use vstd::string::StrSliceExecFns;
use vstd::string::StringExecFns;

use crate::descriptor::FieldData;
use crate::descriptor::MethodData;
use crate::descriptor::MethodSignature;
use crate::format::count_tokens;
use crate::format::csrg::empty_builder;
use crate::format::csrg::BuilderV;
use crate::format::name_ok;
use crate::format::parse_ref_token;
use crate::format::split_lines;
use crate::format::split_lines_v;
use crate::format::ws_tokens;
use crate::format::MappingsParseError;
use crate::mappings::frozen::FrozenMappings;
use crate::mappings::simple::SimpleMappings;
use crate::model::has_key;
use crate::model::key_index;
use crate::model::lemma_key_index;
use crate::model::lookup;
use crate::model::ref_desc_of;
use crate::model::ref_internal_name;
use crate::model::resolve_field_entries;
use crate::model::resolve_method_entries;
use crate::model::sig_render;
use crate::model::take_sig;
use crate::model::tbl_insert;
use crate::model::ClassesV;
use crate::model::FieldsV;
use crate::model::MethodsV;
use crate::tables::TableItem;
use crate::types::ReferenceType;
use crate::utils::lemma_nonspace_at;
use crate::utils::lemma_token_end;
use crate::utils::nonspace_at;
use crate::utils::token_end;
use crate::utils::SimpleParse;
use crate::utils::SimpleParseError;
use crate::utils::SimpleParser;

verus! {

/// The tab dialect's state: entries plus the class block being read.
pub type TsrgSt = (BuilderV, Option<Seq<char>>);

/// One tab-dialect line parsed up to its last token.
pub open spec fn tsrg_line_parsed(st: TsrgSt, s: Seq<char>) -> Option<(TsrgSt, int)> {
    if s.len() == 0 {
        Some((st, s.len() as int))
    } else {
        let p0n = nonspace_at(s, 0);
        if p0n < s.len() && s[p0n] == '#' {
            Some((st, s.len() as int))
        } else if s[0] != '\t' {
            // a new class block
            let t1 = token_end(s, 0);
            let tok1 = s.subrange(0, t1);
            if !name_ok(tok1) || !(t1 < s.len() && s[t1] == ' ') {
                None
            } else {
                let t2 = token_end(s, t1 + 1);
                let tok2 = s.subrange(t1 + 1, t2);
                if !name_ok(tok2) {
                    None
                } else {
                    Some(
                        (
                            (
                                (
                                    tbl_insert(st.0.0, ref_desc_of(tok1), ref_desc_of(tok2)),
                                    st.0.1,
                                    st.0.2,
                                ),
                                Some(ref_desc_of(tok1)),
                            ),
                            s.len() as int,
                        ),
                    )
                }
            }
        } else {
            // a member of the current class block
            match st.1 {
                None => None,
                Some(cur) => {
                    let cnt = ws_tokens(s, 1, false);
                    if cnt == 2 {
                        let t1 = token_end(s, 1);
                        let fname = s.subrange(1, t1);
                        if !(t1 < s.len() && s[t1] == ' ') {
                            None
                        } else {
                            let t2 = token_end(s, t1 + 1);
                            let newname = s.subrange(t1 + 1, t2);
                            Some(
                                (
                                    (
                                        (
                                            st.0.0,
                                            tbl_insert(st.0.1, (cur, fname), newname),
                                            st.0.2,
                                        ),
                                        st.1,
                                    ),
                                    t2,
                                ),
                            )
                        }
                    } else if cnt == 3 {
                        let t1 = token_end(s, 1);
                        let mname = s.subrange(1, t1);
                        if !(t1 < s.len() && s[t1] == ' ') {
                            None
                        } else {
                            match take_sig(s, t1 + 1) {
                                None => None,
                                Some((ps, ret, e)) => if !(e < s.len() && s[e] == ' ') {
                                    None
                                } else {
                                    let t3 = token_end(s, e + 1);
                                    let newname = s.subrange(e + 1, t3);
                                    Some(
                                        (
                                            (
                                                (
                                                    st.0.0,
                                                    st.0.1,
                                                    tbl_insert(
                                                        st.0.2,
                                                        (cur, mname, sig_render(ps, ret)),
                                                        newname,
                                                    ),
                                                ),
                                                st.1,
                                            ),
                                            t3,
                                        ),
                                    )
                                },
                            }
                        }
                    } else {
                        None
                    }
                },
            }
        }
    }
}

/// One tab-dialect line fully processed.  A class line consumes the
/// whole line; a member line allows only trailing whitespace.
pub open spec fn tsrg_line_v(st: TsrgSt, s: Seq<char>) -> Option<TsrgSt> {
    match tsrg_line_parsed(st, s) {
        Some((st2, p)) => if nonspace_at(s, p) == s.len() {
            Some(st2)
        } else {
            None
        },
        None => None,
    }
}

/// A whole tab-dialect text.
pub open spec fn tsrg_run(st: TsrgSt, lines: Seq<Seq<char>>) -> Option<TsrgSt>
    decreases lines.len(),
{
    if lines.len() == 0 {
        Some(st)
    } else {
        match tsrg_run(st, lines.drop_last()) {
            Some(st2) => tsrg_line_v(st2, lines.last()),
            None => None,
        }
    }
}

/// The empty tab-dialect state.
pub open spec fn empty_tsrg() -> TsrgSt {
    (empty_builder(), None::<Seq<char>>)
}

/// Tells whether the first non-whitespace character is `#`.
fn starts_with_hash(s: &str) -> (r: bool)
    ensures
        r == (nonspace_at(s@, 0) < s@.len() && s@[nonspace_at(s@, 0)] == '#'),
{
    let len = s.unicode_len();
    proof {
        lemma_nonspace_at(s@, 0);
    }
    let mut i: usize = 0;
    while i < len
        invariant
            len == s@.len(),
            0 <= i <= len,
            forall|j: int| 0 <= j < i ==> crate::utils::is_space(s@[j]),
        ensures
            0 <= i <= len,
            forall|j: int| 0 <= j < i ==> crate::utils::is_space(s@[j]),
            i < len ==> !crate::utils::is_space(s@[i as int]),
        decreases len - i,
    {
        let c = s.get_char(i);
        if !(c == ' ' || c == '\t' || c == '\r' || c == '\n') {
            break;
        }
        i = i + 1;
    }
    proof {
        assert(nonspace_at(s@, 0) == i) by {
            let p = nonspace_at(s@, 0);
            if p < i {
                assert(!crate::utils::is_space(s@[p]));
            }
            if i < p {
                assert(crate::utils::is_space(s@[i as int]));
            }
        }
    }
    if i < len {
        s.get_char(i) == '#'
    } else {
        false
    }
}

/// Streams tab-dialect lines into a builder.
pub struct TabSrgLineProcessor {
    result: SimpleMappings,
    current_class: Option<ReferenceType>,
}

impl TabSrgLineProcessor {
    /// The state so far.
    pub closed spec fn st_v(&self) -> TsrgSt {
        (
            (self.result.classes_v(), self.result.fields_v(), self.result.methods_v()),
            match self.current_class {
                Some(c) => Some(c@),
                None => None,
            },
        )
    }

    pub closed spec fn wf(&self) -> bool {
        &&& self.result.wf()
        &&& (self.current_class matches Some(c) ==> c.wf())
    }

    pub fn new() -> (r: TabSrgLineProcessor)
        ensures
            r.wf(),
            r.st_v() == empty_tsrg(),
    {
        TabSrgLineProcessor { result: SimpleMappings::new(), current_class: None }
    }

    /// Processes one line against the scanner.
    #[verifier::rlimit(100)]
    fn parse_line(&mut self, parser: &mut SimpleParser) -> (r: Result<(), SimpleParseError>)
        requires
            old(self).wf(),
            old(parser).wf(),
            old(parser).pos_v() == 0,
        ensures
            final(self).wf(),
            r is Ok <==> tsrg_line_v(old(self).st_v(), old(parser).text_v()) is Some,
            r is Ok ==> final(self).st_v() == tsrg_line_v(
                old(self).st_v(),
                old(parser).text_v(),
            )->Some_0,
            r is Err ==> final(self).st_v() == (match tsrg_line_parsed(
                old(self).st_v(),
                old(parser).text_v(),
            ) {
                Some((st2, p)) => st2,
                None => old(self).st_v(),
            }),
            r matches Err(e) ==> e.index <= old(parser).text_v().len(),
            ({
                let s = old(parser).text_v();
                (s.len() > 0 && !(nonspace_at(s, 0) < s.len() && s[nonspace_at(s, 0)] == '#')
                    && s[0] == '\t' && old(self).st_v().1 is None) ==> (r matches Err(e) && {
                    &&& e.index == 1
                    &&& e.reason matches Some(msg) && msg@ == "missing current class"@
                })
            }),
    {
        let ghost s = old(parser).text_v();
        if parser.is_finished() {
            return Ok(());
        }
        let rem = parser.remaining();
        proof {
            assert(rem@ =~= s);
        }
        if starts_with_hash(rem) {
            return Ok(());
        }
        let c = match parser.peek() {
            Ok(c) => c,
            Err(e) => {
                return Err(e);
            },
        };
        if c != '\t' {
            // a new class block
            let original = match parse_ref_token(parser) {
                Ok(t) => t,
                Err(e) => {
                    return Err(e);
                },
            };
            match parser.expect(' ') {
                Ok(_) => (),
                Err(e) => {
                    return Err(e);
                },
            }
            let renamed = match parse_ref_token(parser) {
                Ok(t) => t,
                Err(e) => {
                    return Err(e);
                },
            };
            self.result.set_remapped_class(original.clone(), renamed);
            self.current_class = Some(original);
            return Ok(());
        }
        match parser.expect('\t') {
            Ok(_) => (),
            Err(e) => {
                return Err(e);
            },
        }
        let current = match &self.current_class {
            Some(c) => c.clone(),
            None => {
                return Err(
                    SimpleParseError {
                        index: parser.current_index(),
                        reason: Some(String::from_str("missing current class")),
                    },
                );
            },
        };
        let rem2 = parser.remaining();
        let cnt = count_tokens(rem2);
        proof {
            crate::format::lemma_ws_tokens_shift(s, 1, 0, false);
            assert(rem2@ =~= s.skip(1));
        }
        let not_space = (|ch: char| -> (b: bool) ensures b == (ch == ' ') { ch == ' ' });
        if cnt == 2 {
            let ghost pn = parser.pos_v();
            let original_name = parser.take_until(not_space);
            proof {
                lemma_token_end(s, pn);
                assert(parser.pos_v() == token_end(s, pn)) by {
                    let stop = token_end(s, pn);
                    if parser.pos_v() < stop {
                        assert(s[parser.pos_v()] == ' ');
                    }
                    if stop < parser.pos_v() {
                        assert(s[stop] != ' ');
                    }
                }
            }
            match parser.expect(' ') {
                Ok(_) => (),
                Err(e) => {
                    return Err(e);
                },
            }
            let ghost pr = parser.pos_v();
            let renamed_name = parser.take_until(not_space);
            proof {
                lemma_token_end(s, pr);
                assert(parser.pos_v() == token_end(s, pr)) by {
                    let stop = token_end(s, pr);
                    if parser.pos_v() < stop {
                        assert(s[parser.pos_v()] == ' ');
                    }
                    if stop < parser.pos_v() {
                        assert(s[stop] != ' ');
                    }
                }
            }
            let original_data = FieldData::new(String::from_str(original_name), current);
            self.result.set_field_name(original_data, String::from_str(renamed_name));
        } else if cnt == 3 {
            let ghost pn = parser.pos_v();
            let original_name = parser.take_until(not_space);
            proof {
                lemma_token_end(s, pn);
                assert(parser.pos_v() == token_end(s, pn)) by {
                    let stop = token_end(s, pn);
                    if parser.pos_v() < stop {
                        assert(s[parser.pos_v()] == ' ');
                    }
                    if stop < parser.pos_v() {
                        assert(s[stop] != ' ');
                    }
                }
            }
            match parser.expect(' ') {
                Ok(_) => (),
                Err(e) => {
                    return Err(e);
                },
            }
            let ghost sig_pos = parser.pos_v();
            let signature = match MethodSignature::parse(parser) {
                Ok(t) => t,
                Err(e) => {
                    return Err(e);
                },
            };
            proof {
                parser.lemma_pos_bounds();
                crate::model::lemma_take_sig(s, sig_pos);
            }
            match parser.expect(' ') {
                Ok(_) => (),
                Err(e) => {
                    return Err(e);
                },
            }
            let ghost pr = parser.pos_v();
            let renamed_name = parser.take_until(not_space);
            proof {
                lemma_token_end(s, pr);
                assert(parser.pos_v() == token_end(s, pr)) by {
                    let stop = token_end(s, pr);
                    if parser.pos_v() < stop {
                        assert(s[parser.pos_v()] == ' ');
                    }
                    if stop < parser.pos_v() {
                        assert(s[stop] != ' ');
                    }
                }
            }
            let original_data = MethodData::new(String::from_str(original_name), current, signature);
            self.result.set_method_name(original_data, String::from_str(renamed_name));
        } else {
            return Err(parser.error());
        }
        let ghost pe = parser.pos_v();
        proof {
            parser.lemma_pos_bounds();
            lemma_nonspace_at(s, pe);
        }
        parser.skip_whitespace();
        match parser.ensure_finished() {
            Ok(_) => Ok(()),
            Err(e) => Err(e),
        }
    }

    /// Processes one line, tagging any scan failure with the line text.
    pub fn process_line(&mut self, s: &str) -> (r: Result<(), MappingsParseError>)
        requires
            old(self).wf(),
        ensures
            final(self).wf(),
            r is Ok <==> tsrg_line_v(old(self).st_v(), s@) is Some,
            r is Ok ==> final(self).st_v() == tsrg_line_v(old(self).st_v(), s@)->Some_0,
            r matches Err(MappingsParseError::InvalidLine { line, line_number, index, .. })
                ==> line@ == s@ && line_number == 0 && index <= s@.len(),
            ({
                (s@.len() > 0 && !(nonspace_at(s@, 0) < s@.len() && s@[nonspace_at(s@, 0)] == '#')
                    && s@[0] == '\t' && old(self).st_v().1 is None) ==> (r matches Err(
                    MappingsParseError::InvalidLine { index, reason, .. },
                ) && {
                    &&& index == 1
                    &&& reason matches Some(msg) && msg@ == "missing current class"@
                })
            }),
    {
        let mut parser = SimpleParser::new(s);
        match self.parse_line(&mut parser) {
            Ok(_) => Ok(()),
            Err(cause) => Err(
                MappingsParseError::InvalidLine {
                    index: cause.index,
                    line_number: 0,
                    line: String::from_str(s),
                    reason: cause.reason,
                },
            ),
        }
    }

    /// Freezes what was collected.
    pub fn finish(self) -> (r: Result<FrozenMappings, MappingsParseError>)
        requires
            self.wf(),
        ensures
            r is Ok,
            r matches Ok(m) ==> {
                &&& m.wf()
                &&& m.classes_v() == self.st_v().0.0
                &&& m.fields_v() == resolve_field_entries(self.st_v().0.0, self.st_v().0.1)
                &&& m.methods_v() == resolve_method_entries(self.st_v().0.0, self.st_v().0.2)
            },
    {
        Ok(self.result.frozen())
    }
}

/// The tab-indented mappings dialect.
pub struct TabSrgMappingsFormat;

/// The frozen result of a successful tab-dialect parse of these lines.
pub open spec fn tsrg_parsed_mappings(lines: Seq<Seq<char>>) -> Option<
    (ClassesV, FieldsV, MethodsV),
> {
    match tsrg_run(empty_tsrg(), lines) {
        Some(st) => Some(
            (
                st.0.0,
                resolve_field_entries(st.0.0, st.0.1),
                resolve_method_entries(st.0.0, st.0.2),
            ),
        ),
        None => None,
    }
}

impl TabSrgMappingsFormat {
    pub fn processor() -> (r: TabSrgLineProcessor)
        ensures
            r.wf(),
            r.st_v() == empty_tsrg(),
    {
        TabSrgLineProcessor::new()
    }

    /// Parses a sequence of tab-dialect lines into a frozen mapping.
    pub fn parse_lines(lines: &Vec<String>) -> (r: Result<FrozenMappings, MappingsParseError>)
        ensures
            r is Ok <==> tsrg_parsed_mappings(lines@.map_values(|l: String| l@)) is Some,
            r matches Ok(m) ==> {
                &&& m.wf()
                &&& Some((m.classes_v(), m.fields_v(), m.methods_v())) == tsrg_parsed_mappings(
                    lines@.map_values(|l: String| l@),
                )
            },
            r matches Err(MappingsParseError::InvalidLine { line, line_number, index, .. })
                ==> exists|i: int|
                #![trigger lines@[i]]
                {
                    let lvs = lines@.map_values(|l: String| l@);
                    &&& 0 <= i < lvs.len()
                    &&& tsrg_run(empty_tsrg(), lvs.take(i)) is Some
                    &&& tsrg_line_v(tsrg_run(empty_tsrg(), lvs.take(i))->Some_0, lvs[i]) is None
                    &&& line@ == lvs[i]
                    &&& line_number == i + 1
                    &&& index <= line@.len()
                },
    {
        let ghost lvs = lines@.map_values(|l: String| l@);
        let mut processor = TabSrgLineProcessor::new();
        let n = lines.len();
        let mut i: usize = 0;
        while i < n
            invariant
                processor.wf(),
                lvs == lines@.map_values(|l: String| l@),
                n == lines@.len(),
                0 <= i <= n,
                tsrg_run(empty_tsrg(), lvs.take(i as int)) == Some(processor.st_v()),
            decreases n - i,
        {
            proof {
                assert(lvs.take(i + 1).drop_last() =~= lvs.take(i as int));
                assert(lvs.take(i + 1).last() == lvs[i as int]);
            }
            match processor.process_line(lines[i].as_str()) {
                Ok(_) => (),
                Err(e) => {
                    proof {
                        lemma_tsrg_run_extends_none(lvs, i as int);
                    }
                    match e {
                        MappingsParseError::InvalidLine { line, index, reason, .. } => {
                            return Err(
                                MappingsParseError::InvalidLine {
                                    line,
                                    line_number: i + 1,
                                    index,
                                    reason,
                                },
                            );
                        },
                    }
                },
            }
            i = i + 1;
        }
        proof {
            assert(lvs.take(n as int) =~= lvs);
        }
        processor.finish()
    }

    /// Parses a whole tab-dialect text.
    pub fn parse_text(text: &str) -> (r: Result<FrozenMappings, MappingsParseError>)
        ensures
            r is Ok <==> tsrg_parsed_mappings(split_lines_v(text@)) is Some,
            r matches Ok(m) ==> {
                &&& m.wf()
                &&& Some((m.classes_v(), m.fields_v(), m.methods_v())) == tsrg_parsed_mappings(
                    split_lines_v(text@),
                )
            },
            r matches Err(MappingsParseError::InvalidLine { line, line_number, index, .. })
                ==> exists|i: int|
                #![trigger split_lines_v(text@)[i]]
                {
                    let lvs = split_lines_v(text@);
                    &&& 0 <= i < lvs.len()
                    &&& tsrg_run(empty_tsrg(), lvs.take(i)) is Some
                    &&& tsrg_line_v(tsrg_run(empty_tsrg(), lvs.take(i))->Some_0, lvs[i]) is None
                    &&& line@ == lvs[i]
                    &&& line_number == i + 1
                    &&& index <= line@.len()
                },
    {
        let lines = split_lines(text);
        TabSrgMappingsFormat::parse_lines(&lines)
    }
}

/// The per-class data the writer groups entries into.
pub type GroupV = (Option<Seq<char>>, FieldsV, MethodsV);

/// The grouping table: class descriptor to its block.
pub type GroupsV = Seq<(Seq<char>, GroupV)>;

/// The block stored for a class, or an empty one.
pub open spec fn group_of(g: GroupsV, k: Seq<char>) -> GroupV {
    match lookup(g, k) {
        Some(d) => d,
        None => (None::<Seq<char>>, Seq::<((Seq<char>, Seq<char>), (Seq<char>, Seq<char>))>::empty(), Seq::<
            ((Seq<char>, Seq<char>, Seq<char>), (Seq<char>, Seq<char>, Seq<char>)),
        >::empty()),
    }
}

/// Records a class's renamed form in its block.
pub open spec fn groups_add_class(g: GroupsV, k: Seq<char>, renamed: Seq<char>) -> GroupsV {
    let cur = group_of(g, k);
    tbl_insert(g, k, (Some(renamed), cur.1, cur.2))
}

/// Appends a field entry to its declaring class's block.
pub open spec fn groups_add_field(
    g: GroupsV,
    e: ((Seq<char>, Seq<char>), (Seq<char>, Seq<char>)),
) -> GroupsV {
    let cur = group_of(g, e.0.0);
    tbl_insert(g, e.0.0, (cur.0, cur.1.push(e), cur.2))
}

/// Appends a method entry to its declaring class's block.
pub open spec fn groups_add_method(
    g: GroupsV,
    e: ((Seq<char>, Seq<char>, Seq<char>), (Seq<char>, Seq<char>, Seq<char>)),
) -> GroupsV {
    let cur = group_of(g, e.0.0);
    tbl_insert(g, e.0.0, (cur.0, cur.1, cur.2.push(e)))
}

/// The blocks opened by the class table, in order.
pub open spec fn groups_from_classes(c: ClassesV) -> GroupsV
    decreases c.len(),
{
    if c.len() == 0 {
        Seq::<(Seq<char>, GroupV)>::empty()
    } else {
        groups_add_class(groups_from_classes(c.drop_last()), c.last().0, c.last().1)
    }
}

/// The blocks with every field entry added.
pub open spec fn groups_with_fields(g0: GroupsV, f: FieldsV) -> GroupsV
    decreases f.len(),
{
    if f.len() == 0 {
        g0
    } else {
        groups_add_field(groups_with_fields(g0, f.drop_last()), f.last())
    }
}

/// The blocks with every method entry added.
pub open spec fn groups_with_methods(g0: GroupsV, m: MethodsV) -> GroupsV
    decreases m.len(),
{
    if m.len() == 0 {
        g0
    } else {
        groups_add_method(groups_with_methods(g0, m.drop_last()), m.last())
    }
}

/// The complete grouping of a mapping: classes open blocks, then fields
/// and methods join theirs, new blocks appended as discovered.
pub open spec fn tsrg_groups(c: ClassesV, f: FieldsV, m: MethodsV) -> GroupsV {
    groups_with_methods(groups_with_fields(groups_from_classes(c), f), m)
}

/// The tab-indented field lines of a block.
pub open spec fn tsrg_field_lines(f: FieldsV) -> Seq<char>
    decreases f.len(),
{
    if f.len() == 0 {
        Seq::<char>::empty()
    } else {
        tsrg_field_lines(f.drop_last()) + seq!['\t'] + f.last().0.1 + seq![' '] + f.last().1.1
            + seq!['\n']
    }
}

/// The tab-indented method lines of a block.
pub open spec fn tsrg_method_lines(m: MethodsV) -> Seq<char>
    decreases m.len(),
{
    if m.len() == 0 {
        Seq::<char>::empty()
    } else {
        tsrg_method_lines(m.drop_last()) + seq!['\t'] + m.last().0.1 + seq![' '] + m.last().0.2
            + seq![' '] + m.last().1.1 + seq!['\n']
    }
}

/// A class block: the class line, then its fields, then its methods.
pub open spec fn tsrg_block(k: Seq<char>, d: GroupV) -> Seq<char> {
    ref_internal_name(k) + seq![' '] + ref_internal_name(
        match d.0 {
            Some(r) => r,
            None => k,
        },
    ) + seq!['\n'] + tsrg_field_lines(d.1) + tsrg_method_lines(d.2)
}

/// All blocks, in grouping order.
pub open spec fn tsrg_render_groups(g: GroupsV) -> Seq<char>
    decreases g.len(),
{
    if g.len() == 0 {
        Seq::<char>::empty()
    } else {
        tsrg_render_groups(g.drop_last()) + tsrg_block(g.last().0, g.last().1)
    }
}

/// The whole tab-dialect text of a mapping.
pub open spec fn tsrg_render(c: ClassesV, f: FieldsV, m: MethodsV) -> Seq<char> {
    tsrg_render_groups(tsrg_groups(c, f, m))
}

/// The per-class data collected while grouping.
struct ClassData {
    renamed_type: Option<ReferenceType>,
    fields: Vec<(FieldData, FieldData)>,
    methods: Vec<(MethodData, MethodData)>,
}

/// The view of one collected block.
spec fn group_view(d: ClassData) -> GroupV {
    (
        match d.renamed_type {
            Some(t) => Some(t@),
            None => None,
        },
        d.fields@.map_values(|p: (FieldData, FieldData)| (p.0@, p.1@)),
        d.methods@.map_values(|p: (MethodData, MethodData)| (p.0@, p.1@)),
    )
}

/// The view of the collected grouping.
spec fn groups_view(v: Seq<(ReferenceType, ClassData)>) -> GroupsV {
    v.map_values(|e: (ReferenceType, ClassData)| (e.0@, group_view(e.1)))
}

/// Every collected key and entry is well formed.
spec fn groups_wf(v: Seq<(ReferenceType, ClassData)>) -> bool {
    forall|i: int|
        0 <= i < v.len() ==> {
            &&& (#[trigger] v[i]).0.wf()
            &&& (v[i].1.renamed_type matches Some(t) ==> t.wf())
            &&& (forall|j: int|
                0 <= j < v[i].1.fields@.len() ==> ((#[trigger] v[i].1.fields@[j]).0.wf()
                    && v[i].1.fields@[j].1.wf()))
            &&& (forall|j: int|
                0 <= j < v[i].1.methods@.len() ==> ((#[trigger] v[i].1.methods@[j]).0.wf()
                    && v[i].1.methods@[j].1.wf()))
        }
}

/// First position of a class's block, if one is open.
fn find_group(data: &Vec<(ReferenceType, ClassData)>, k: &ReferenceType) -> (r: Option<usize>)
    ensures
        r matches Some(i) ==> i == key_index(groups_view(data@), k@) && i < data@.len(),
        r is Some <==> has_key(groups_view(data@), k@),
{
    let ghost gv = groups_view(data@);
    let n = data.len();
    let mut i: usize = 0;
    while i < n
        invariant
            n == data@.len(),
            gv == groups_view(data@),
            0 <= i <= n,
            forall|j: int| 0 <= j < i ==> gv[j].0 != k@,
        decreases n - i,
    {
        if data[i].0.eq_view(k) {
            proof {
                lemma_key_index(gv, k@);
                if key_index(gv, k@) != i {
                    assert(gv[i as int].0 == k@);
                }
            }
            return Some(i);
        }
        i = i + 1;
    }
    proof {
        lemma_key_index(gv, k@);
    }
    None
}

/// Collects a mapping's entries into per-class blocks, keyed by the
/// original declaring class, in first-appearance order.
fn from_mappings(mappings: &FrozenMappings) -> (r: Vec<(ReferenceType, ClassData)>)
    requires
        mappings.wf(),
    ensures
        groups_view(r@) == tsrg_groups(
            mappings.classes_v(),
            mappings.fields_v(),
            mappings.methods_v(),
        ),
        groups_wf(r@),
{
    let ghost cv = mappings.classes_v();
    let ghost fv = mappings.fields_v();
    let ghost mv = mappings.methods_v();
    let mut data: Vec<(ReferenceType, ClassData)> = Vec::new();
    proof {
        assert(groups_view(data@) =~~= groups_from_classes(cv.take(0)));
    }
    let n = mappings.class_count();
    let mut i: usize = 0;
    while i < n
        invariant
            mappings.wf(),
            cv == mappings.classes_v(),
            n == cv.len(),
            0 <= i <= n,
            groups_view(data@) == groups_from_classes(cv.take(i as int)),
            groups_wf(data@),
        decreases n - i,
    {
        let e = mappings.class_at(i);
        proof {
            assert(cv.take(i + 1).drop_last() =~= cv.take(i as int));
            lemma_key_index(groups_view(data@), e.0@);
        }
        match find_group(&data, e.0) {
            Some(j) => {
                let (k0, d0) = data.remove(j);
                data.insert(
                    j,
                    (
                        k0,
                        ClassData {
                            renamed_type: Some(e.1.clone()),
                            fields: d0.fields,
                            methods: d0.methods,
                        },
                    ),
                );
                proof {
                    assert(groups_view(data@) =~~= groups_from_classes(cv.take(i + 1)));
                }
            },
            None => {
                data.push(
                    (
                        e.0.clone(),
                        ClassData {
                            renamed_type: Some(e.1.clone()),
                            fields: Vec::new(),
                            methods: Vec::new(),
                        },
                    ),
                );
                proof {
                    assert(groups_view(data@) =~~= groups_from_classes(cv.take(i + 1)));
                }
            },
        }
        i = i + 1;
    }
    proof {
        assert(cv.take(n as int) =~= cv);
    }
    let ghost g0 = groups_view(data@);
    let n = mappings.field_count();
    let mut i: usize = 0;
    while i < n
        invariant
            mappings.wf(),
            fv == mappings.fields_v(),
            n == fv.len(),
            0 <= i <= n,
            groups_view(data@) == groups_with_fields(g0, fv.take(i as int)),
            groups_wf(data@),
            g0 == groups_from_classes(mappings.classes_v()),
        decreases n - i,
    {
        let e = mappings.field_at(i);
        let pair = (e.0.clone(), e.1.clone());
        let declaring = e.0.declaring_type();
        proof {
            assert(fv.take(i + 1).drop_last() =~= fv.take(i as int));
            lemma_key_index(groups_view(data@), declaring@);
        }
        match find_group(&data, declaring) {
            Some(j) => {
                let (k0, d0) = data.remove(j);
                let mut fields = d0.fields;
                fields.push(pair);
                data.insert(
                    j,
                    (k0, ClassData { renamed_type: d0.renamed_type, fields, methods: d0.methods }),
                );
                proof {
                    assert(groups_view(data@) =~~= groups_with_fields(g0, fv.take(i + 1)));
                }
            },
            None => {
                let mut fields: Vec<(FieldData, FieldData)> = Vec::new();
                fields.push(pair);
                data.push(
                    (
                        declaring.clone(),
                        ClassData { renamed_type: None, fields, methods: Vec::new() },
                    ),
                );
                proof {
                    assert(groups_view(data@) =~~= groups_with_fields(g0, fv.take(i + 1)));
                }
            },
        }
        i = i + 1;
    }
    proof {
        assert(fv.take(n as int) =~= fv);
    }
    let ghost g1 = groups_view(data@);
    let n = mappings.method_count();
    let mut i: usize = 0;
    while i < n
        invariant
            mappings.wf(),
            mv == mappings.methods_v(),
            n == mv.len(),
            0 <= i <= n,
            groups_view(data@) == groups_with_methods(g1, mv.take(i as int)),
            groups_wf(data@),
            g1 == groups_with_fields(
                groups_from_classes(mappings.classes_v()),
                mappings.fields_v(),
            ),
        decreases n - i,
    {
        let e = mappings.method_at(i);
        let pair = (e.0.clone(), e.1.clone());
        let declaring = e.0.declaring_type();
        proof {
            assert(mv.take(i + 1).drop_last() =~= mv.take(i as int));
            lemma_key_index(groups_view(data@), declaring@);
        }
        match find_group(&data, declaring) {
            Some(j) => {
                let (k0, d0) = data.remove(j);
                let mut methods = d0.methods;
                methods.push(pair);
                data.insert(
                    j,
                    (k0, ClassData { renamed_type: d0.renamed_type, fields: d0.fields, methods }),
                );
                proof {
                    assert(groups_view(data@) =~~= groups_with_methods(g1, mv.take(i + 1)));
                }
            },
            None => {
                let mut methods: Vec<(MethodData, MethodData)> = Vec::new();
                methods.push(pair);
                data.push(
                    (
                        declaring.clone(),
                        ClassData { renamed_type: None, fields: Vec::new(), methods },
                    ),
                );
                proof {
                    assert(groups_view(data@) =~~= groups_with_methods(g1, mv.take(i + 1)));
                }
            },
        }
        i = i + 1;
    }
    proof {
        assert(mv.take(n as int) =~= mv);
    }
    data
}

impl TabSrgMappingsFormat {
    /// Writes the mapping in the tab dialect: one block per class.
    pub fn write_string(mappings: &FrozenMappings) -> (r: String)
        requires
            mappings.wf(),
        ensures
            r@ == tsrg_render(mappings.classes_v(), mappings.fields_v(), mappings.methods_v()),
    {
        let data = from_mappings(mappings);
        let ghost gv = groups_view(data@);
        let mut out = String::new();
        let n = data.len();
        let mut i: usize = 0;
        while i < n
            invariant
                gv == groups_view(data@),
                groups_wf(data@),
                n == data@.len(),
                0 <= i <= n,
                out@ == tsrg_render_groups(gv.take(i as int)),
            decreases n - i,
        {
            proof {
                assert(gv.take(i + 1).drop_last() =~= gv.take(i as int));
                assert(gv[i as int] == (data@[i as int].0@, group_view(data@[i as int].1)));
            }
            let declaring = &data[i].0;
            out.append(declaring.internal_name().as_str());
            crate::utils::push_char(&mut out, ' ');
            match &data[i].1.renamed_type {
                Some(t) => {
                    out.append(t.internal_name().as_str());
                },
                None => {
                    out.append(declaring.internal_name().as_str());
                },
            }
            crate::utils::push_char(&mut out, '\n');
            let ghost dv = group_view(data@[i as int].1);
            let ghost base = out@;
            let fn_count = data[i].1.fields.len();
            let mut j: usize = 0;
            while j < fn_count
                invariant
                    groups_wf(data@),
                    0 <= i < data@.len(),
                    dv == group_view(data@[i as int].1),
                    fn_count == data@[i as int].1.fields@.len(),
                    0 <= j <= fn_count,
                    out@ == base + tsrg_field_lines(dv.1.take(j as int)),
                decreases fn_count - j,
            {
                proof {
                    assert(dv.1.take(j + 1).drop_last() =~= dv.1.take(j as int));
                    assert(dv.1[j as int] == (
                        data@[i as int].1.fields@[j as int].0@,
                        data@[i as int].1.fields@[j as int].1@,
                    ));
                }
                let fe = &data[i].1.fields[j];
                crate::utils::push_char(&mut out, '\t');
                out.append(fe.0.name());
                crate::utils::push_char(&mut out, ' ');
                out.append(fe.1.name());
                crate::utils::push_char(&mut out, '\n');
                j = j + 1;
            }
            proof {
                assert(dv.1.take(fn_count as int) =~= dv.1);
            }
            let ghost base2 = out@;
            let mn_count = data[i].1.methods.len();
            let mut j: usize = 0;
            while j < mn_count
                invariant
                    groups_wf(data@),
                    0 <= i < data@.len(),
                    dv == group_view(data@[i as int].1),
                    mn_count == data@[i as int].1.methods@.len(),
                    0 <= j <= mn_count,
                    out@ == base2 + tsrg_method_lines(dv.2.take(j as int)),
                    base2 == base + tsrg_field_lines(dv.1),
                decreases mn_count - j,
            {
                proof {
                    assert(dv.2.take(j + 1).drop_last() =~= dv.2.take(j as int));
                    assert(dv.2[j as int] == (
                        data@[i as int].1.methods@[j as int].0@,
                        data@[i as int].1.methods@[j as int].1@,
                    ));
                }
                let me = &data[i].1.methods[j];
                crate::utils::push_char(&mut out, '\t');
                out.append(me.0.name());
                crate::utils::push_char(&mut out, ' ');
                out.append(me.0.signature().descriptor_as_str());
                crate::utils::push_char(&mut out, ' ');
                out.append(me.1.name());
                crate::utils::push_char(&mut out, '\n');
                j = j + 1;
            }
            proof {
                assert(dv.2.take(mn_count as int) =~= dv.2);
                assert(out@ =~= tsrg_render_groups(gv.take(i + 1)));
            }
            i = i + 1;
        }
        proof {
            assert(gv.take(n as int) =~= gv);
        }
        out
    }

    /// Writes the mapping and splits it into lines.
    pub fn write_line_array(mappings: &FrozenMappings) -> (r: Vec<String>)
        requires
            mappings.wf(),
        ensures
            r@.map_values(|l: String| l@) == split_lines_v(
                tsrg_render(mappings.classes_v(), mappings.fields_v(), mappings.methods_v()),
            ),
    {
        let text = TabSrgMappingsFormat::write_string(mappings);
        split_lines(text.as_str())
    }
}

/// Once a prefix of the lines fails, the whole run fails.
pub proof fn lemma_tsrg_run_extends_none(lines: Seq<Seq<char>>, i: int)
    requires
        0 <= i < lines.len(),
        tsrg_run(empty_tsrg(), lines.take(i + 1)) is None,
    ensures
        tsrg_run(empty_tsrg(), lines) is None,
    decreases lines.len() - i,
{
    if i + 1 < lines.len() {
        assert(lines.take(i + 2).drop_last() =~= lines.take(i + 1));
        lemma_tsrg_run_extends_none(lines, i + 1);
    } else {
        assert(lines.take(i + 1) =~= lines);
    }
}

} // verus!
