//! The prefixed dialect: `CL:`, `FD:`, `MD:` and `PK:` lines, members
//! written as joined `declaring/name` internal names.

use vstd::prelude::*;
use vstd::string::StrSliceExecFns;
use vstd::string::StringExecFns;

use crate::descriptor::FieldData;
use crate::descriptor::MethodData;
use crate::descriptor::MethodSignature;
use crate::format::csrg::empty_builder;
use crate::format::csrg::BuilderV;
use crate::format::name_ok;
use crate::format::parse_ref_token;
use crate::format::split_lines;
use crate::format::split_lines_v;
use crate::format::MappingsParseError;
use crate::mappings::frozen::FrozenMappings;
use crate::mappings::simple::SimpleMappings;
use crate::mappings::transformer::package_table_clean;
use crate::mappings::transformer::transformed_classes;
use crate::mappings::transformer::transformed_field_names;
use crate::mappings::transformer::transformed_method_names;
use crate::model::ref_desc_of;
use crate::model::ref_internal_name;
use crate::model::resolve_field_entries;
use crate::model::resolve_method_entries;
use crate::model::sig_render;
use crate::model::take_sig;
use crate::model::tbl_insert;
use crate::model::ClassesV;
use crate::model::FieldsV;
use crate::model::MethodsV;
use crate::tables::Table;
use crate::tables::TableItem;
use crate::types::last_slash;
use crate::types::lemma_last_slash;
use crate::types::ReferenceType;
use crate::utils::lemma_nonspace_at;
use crate::utils::lemma_token_end;
use crate::utils::nonspace_at;
use crate::utils::token_end;
use crate::utils::SimpleParse;
use crate::utils::SimpleParseError;
use crate::utils::SimpleParser;

verus! {

/// A package table, as views.
pub type PackagesV = Seq<(Seq<char>, Seq<char>)>;

/// The builder state of the prefixed dialect: entries plus packages.
pub type SrgSt = (BuilderV, PackagesV);

/// The token has no `.`, holds a `/`, and its declaring part (up to the
/// last `/`) has no `;`: it can be split into declaring type and name.
pub open spec fn joined_ok(tok: Seq<char>) -> bool {
    let ls = last_slash(tok);
    &&& forall|i: int| 0 <= i < tok.len() ==> tok[i] != '.'
    &&& ls >= 0
    &&& forall|i: int| 0 <= i < ls ==> tok[i] != ';'
}

/// The declaring descriptor packed in a joined token.
pub open spec fn joined_decl(tok: Seq<char>) -> Seq<char> {
    ref_desc_of(tok.subrange(0, last_slash(tok)))
}

/// The member name packed in a joined token.
pub open spec fn joined_name(tok: Seq<char>) -> Seq<char> {
    tok.subrange(last_slash(tok) + 1, tok.len() as int)
}

/// Reads one space-delimited joined `declaring/name` token.
pub fn parse_joined(parser: &mut SimpleParser) -> (r: Result<
    (ReferenceType, String),
    SimpleParseError,
>)
    requires
        old(parser).wf(),
    ensures
        final(parser).wf(),
        final(parser).text_v() == old(parser).text_v(),
        final(parser).pos_v() == token_end(old(parser).text_v(), old(parser).pos_v()),
        ({
            let tok = old(parser).text_v().subrange(old(parser).pos_v(), final(parser).pos_v());
            &&& (r is Ok <==> joined_ok(tok))
            &&& (r matches Ok(p) ==> p.0.wf() && p.0@ == joined_decl(tok) && p.1@ == joined_name(
                tok,
            ))
        }),
        r matches Err(e) ==> e.index <= old(parser).text_v().len(),
        r matches Err(e) ==> ({
            let s = old(parser).text_v();
            let from = old(parser).pos_v();
            let te = final(parser).pos_v();
            &&& e.reason is Some
            &&& from <= e.index <= te
            &&& ((e.index < te && s[e.index as int] == '.' && (forall|j: int|
                from <= j < e.index ==> s[j] != '.')) || (e.index == from && (forall|j: int|
                from <= j < te ==> s[j] != '.' && s[j] != '/')) || (e.index < te && s[e.index as int]
                == ';' && (forall|j: int| from <= j < te ==> s[j] != '.') && (forall|j: int|
                from <= j < e.index ==> s[j] != ';')))
        }),
{
    let ghost s = old(parser).text_v();
    let ghost from = old(parser).pos_v();
    proof {
        parser.lemma_pos_bounds();
        lemma_token_end(s, from);
    }
    let start = parser.current_index();
    let token = match parser.parse_internal_name() {
        Ok(token) => token,
        Err(e) => {
            proof {
                parser.lemma_pos_bounds();
            }
            return Err(e);
        },
    };
    let len = token.unicode_len();
    proof {
        lemma_last_slash(token@);
    }
    let ghost ls = last_slash(token@);
    // walk backwards to the last slash
    let mut i: usize = len;
    loop
        invariant
            len == token@.len(),
            0 <= i <= len,
            ls < i || ls < 0,
            forall|j: int| i <= j < len ==> token@[j] != '/',
            -1 <= ls < len,
            ls >= 0 ==> token@[ls] == '/',
            forall|j: int| ls < j < len ==> token@[j] != '/',
        ensures
            len == token@.len(),
            i as int == ls + 1,
        decreases i,
    {
        if i == 0 {
            break;
        }
        if token.get_char(i - 1) == '/' {
            break;
        }
        i = i - 1;
    }
    if i == 0 {
        proof {
            parser.lemma_pos_bounds();
            assert forall|j: int| from <= j < parser.pos_v() implies s[j] != '.' && s[j]
                != '/' by {
                assert(token@[j - from] != '.');
                assert(token@[j - from] != '/');
            }
        }
        return Err(
            SimpleParseError {
                index: start,
                reason: Some(String::from_str("expected a joined declaring/name token")),
            },
        );
    }
    let declaring_str = token.substring_char(0, i - 1);
    let name_str = token.substring_char(i, len);
    // the declaring part must be free of separators
    let dlen = i - 1;
    let mut j: usize = 0;
    while j < dlen
        invariant
            parser.wf(),
            parser.text_v() == s,
            s == old(parser).text_v(),
            from == old(parser).pos_v(),
            0 <= from <= parser.pos_v() <= s.len(),
            parser.pos_v() == token_end(s, from),
            token@ == s.subrange(from, parser.pos_v()),
            len == token@.len(),
            start == from,
            dlen == ls,
            ls == last_slash(token@),
            0 <= ls < len,
            declaring_str@ == token@.subrange(0, ls),
            name_str@ == token@.subrange(ls + 1, len as int),
            forall|k: int| 0 <= k < len ==> token@[k] != '.',
            0 <= j <= dlen,
            forall|k: int| 0 <= k < j ==> token@[k] != ';',
        decreases dlen - j,
    {
        if declaring_str.get_char(j) == ';' {
            proof {
                parser.lemma_text_len();
                parser.lemma_pos_bounds();
                assert forall|k: int| from <= k < parser.pos_v() implies s[k] != '.' by {
                    assert(token@[k - from] != '.');
                }
                assert forall|k: int| from <= k < start + j implies s[k] != ';' by {
                    assert(token@[k - from] == declaring_str@[k - from]);
                }
                assert(s[start + j] == token@[j as int]);
                assert(token@[j as int] == declaring_str@[j as int]);
            }
            return Err(
                SimpleParseError {
                    index: start + j,
                    reason: Some(String::from_str("separator in internal name")),
                },
            );
        }
        j = j + 1;
    }
    proof {
        assert forall|k: int| 0 <= k < declaring_str@.len() implies declaring_str@[k] != '.'
            && declaring_str@[k] != ';' by {
            assert(declaring_str@[k] == token@[k]);
        }
    }
    Ok((ReferenceType::from_internal_name(declaring_str), String::from_str(name_str)))
}

/// One prefixed line parsed up to its last token.
pub open spec fn srg_line_parsed(st: SrgSt, s: Seq<char>) -> Option<(SrgSt, int)> {
    let p0 = nonspace_at(s, 0);
    if p0 >= s.len() || s[p0] == '#' {
        Some((st, s.len() as int))
    } else if p0 + 2 <= s.len() && s.subrange(p0, p0 + 2) == "MD"@ {
        if !(p0 + 4 <= s.len() && s.subrange(p0, p0 + 4) == "MD: "@) {
            None
        } else {
            let p = p0 + 4;
            let t1 = token_end(s, p);
            let tok1 = s.subrange(p, t1);
            if !joined_ok(tok1) || !(t1 < s.len() && s[t1] == ' ') {
                None
            } else {
                match take_sig(s, t1 + 1) {
                    None => None,
                    Some((ps, ret, e)) => if !(e < s.len() && s[e] == ' ') {
                        None
                    } else {
                        let t2 = token_end(s, e + 1);
                        let tok2 = s.subrange(e + 1, t2);
                        if !joined_ok(tok2) || !(t2 < s.len() && s[t2] == ' ') {
                            None
                        } else {
                            match take_sig(s, t2 + 1) {
                                None => None,
                                Some((ps2, ret2, e2)) => Some(
                                    (
                                        (
                                            (
                                                st.0.0,
                                                st.0.1,
                                                tbl_insert(
                                                    st.0.2,
                                                    (
                                                        joined_decl(tok1),
                                                        joined_name(tok1),
                                                        sig_render(ps, ret),
                                                    ),
                                                    joined_name(tok2),
                                                ),
                                            ),
                                            st.1,
                                        ),
                                        e2,
                                    ),
                                ),
                            }
                        }
                    },
                }
            }
        }
    } else if p0 + 2 <= s.len() && s.subrange(p0, p0 + 2) == "FD"@ {
        if !(p0 + 4 <= s.len() && s.subrange(p0, p0 + 4) == "FD: "@) {
            None
        } else {
            let p = p0 + 4;
            let t1 = token_end(s, p);
            let tok1 = s.subrange(p, t1);
            if !joined_ok(tok1) || !(t1 < s.len() && s[t1] == ' ') {
                None
            } else {
                let t2 = token_end(s, t1 + 1);
                let tok2 = s.subrange(t1 + 1, t2);
                if !joined_ok(tok2) {
                    None
                } else {
                    Some(
                        (
                            (
                                (
                                    st.0.0,
                                    tbl_insert(
                                        st.0.1,
                                        (joined_decl(tok1), joined_name(tok1)),
                                        joined_name(tok2),
                                    ),
                                    st.0.2,
                                ),
                                st.1,
                            ),
                            t2,
                        ),
                    )
                }
            }
        }
    } else if p0 + 2 <= s.len() && s.subrange(p0, p0 + 2) == "CL"@ {
        if !(p0 + 4 <= s.len() && s.subrange(p0, p0 + 4) == "CL: "@) {
            None
        } else {
            let p = p0 + 4;
            let t1 = token_end(s, p);
            let tok1 = s.subrange(p, t1);
            if !name_ok(tok1) || !(t1 < s.len() && s[t1] == ' ') {
                None
            } else {
                let t2 = token_end(s, t1 + 1);
                let tok2 = s.subrange(t1 + 1, t2);
                if !name_ok(tok2) {
                    None
                } else {
                    Some(
                        (
                            (
                                (
                                    tbl_insert(st.0.0, ref_desc_of(tok1), ref_desc_of(tok2)),
                                    st.0.1,
                                    st.0.2,
                                ),
                                st.1,
                            ),
                            t2,
                        ),
                    )
                }
            }
        }
    } else if p0 + 2 <= s.len() && s.subrange(p0, p0 + 2) == "PK"@ {
        if !(p0 + 4 <= s.len() && s.subrange(p0, p0 + 4) == "PK: "@) {
            None
        } else {
            let p = p0 + 4;
            let t1 = token_end(s, p);
            let key_tok = s.subrange(p, t1);
            let key = if key_tok == "./"@ {
                Seq::<char>::empty()
            } else {
                key_tok
            };
            if !(t1 < s.len() && s[t1] == ' ') {
                None
            } else {
                let t2 = token_end(s, t1 + 1);
                let val = s.subrange(t1 + 1, t2);
                if !name_ok(val) {
                    None
                } else {
                    Some(((st.0, tbl_insert(st.1, key, val)), t2))
                }
            }
        }
    } else {
        None
    }
}

/// One prefixed line fully processed.
pub open spec fn srg_line_v(st: SrgSt, s: Seq<char>) -> Option<SrgSt> {
    match srg_line_parsed(st, s) {
        Some((st2, p)) => if nonspace_at(s, p) == s.len() {
            Some(st2)
        } else {
            None
        },
        None => None,
    }
}

/// A whole prefixed text.
pub open spec fn srg_run(st: SrgSt, lines: Seq<Seq<char>>) -> Option<SrgSt>
    decreases lines.len(),
{
    if lines.len() == 0 {
        Some(st)
    } else {
        match srg_run(st, lines.drop_last()) {
            Some(st2) => srg_line_v(st2, lines.last()),
            None => None,
        }
    }
}

/// The empty prefixed-dialect state.
pub open spec fn empty_srg() -> SrgSt {
    (empty_builder(), Seq::<(Seq<char>, Seq<char>)>::empty())
}

/// Streams prefixed lines into a builder and a package table.
pub struct SrgLineProcessor {
    result: SimpleMappings,
    packages: Table<String, String>,
}

impl SrgLineProcessor {
    /// The state so far.
    pub closed spec fn st_v(&self) -> SrgSt {
        (
            (self.result.classes_v(), self.result.fields_v(), self.result.methods_v()),
            self.packages.map_v(),
        )
    }

    pub closed spec fn wf(&self) -> bool {
        self.result.wf() && self.packages.distinct() && self.packages.all_wf()
            && package_table_clean(&self.packages)
    }

    pub fn new() -> (r: SrgLineProcessor)
        ensures
            r.wf(),
            r.st_v() == empty_srg(),
    {
        SrgLineProcessor { result: SimpleMappings::new(), packages: Table::new() }
    }

    /// Processes one line against the scanner.
    #[verifier::rlimit(100)]
    fn parse_line(&mut self, parser: &mut SimpleParser) -> (r: Result<(), SimpleParseError>)
        requires
            old(self).wf(),
            old(parser).wf(),
            old(parser).pos_v() == 0,
        ensures
            final(self).wf(),
            r is Ok <==> srg_line_v(old(self).st_v(), old(parser).text_v()) is Some,
            r is Ok ==> final(self).st_v() == srg_line_v(
                old(self).st_v(),
                old(parser).text_v(),
            )->Some_0,
            r is Err ==> final(self).st_v() == (match srg_line_parsed(
                old(self).st_v(),
                old(parser).text_v(),
            ) {
                Some((st2, p)) => st2,
                None => old(self).st_v(),
            }),
            r matches Err(e) ==> e.index <= old(parser).text_v().len(),
    {
        let ghost s = old(parser).text_v();
        let ghost st0 = old(self).st_v();
        proof {
            lemma_nonspace_at(s, 0);
            reveal_strlit("MD");
            reveal_strlit("FD");
            reveal_strlit("CL");
            reveal_strlit("PK");
            reveal_strlit("MD: ");
            reveal_strlit("FD: ");
            reveal_strlit("CL: ");
            reveal_strlit("PK: ");
            reveal_strlit("./");
        }
        parser.skip_whitespace();
        if parser.is_finished() {
            return Ok(());
        }
        let c = match parser.peek() {
            Ok(c) => c,
            Err(e) => {
                return Err(e);
            },
        };
        if c == '#' {
            return Ok(());
        }
        let ghost p0 = parser.pos_v();
        let prefix = match parser.peek_str(2) {
            Ok(p) => p,
            Err(e) => {
                return Err(e);
            },
        };
        if crate::utils::str_eq(prefix, "MD") {
            match parser.expect_str("MD: ") {
                Ok(_) => (),
                Err(e) => {
                    return Err(e);
                },
            }
            let original_joined = match parse_joined(parser) {
                Ok(p) => p,
                Err(e) => {
                    return Err(e);
                },
            };
            match parser.expect(' ') {
                Ok(_) => (),
                Err(e) => {
                    return Err(e);
                },
            }
            let ghost sig_pos = parser.pos_v();
            let original_signature = match MethodSignature::parse(parser) {
                Ok(t) => t,
                Err(e) => {
                    return Err(e);
                },
            };
            proof {
                parser.lemma_pos_bounds();
                crate::model::lemma_take_sig(s, sig_pos);
            }
            match parser.expect(' ') {
                Ok(_) => (),
                Err(e) => {
                    return Err(e);
                },
            }
            let renamed_joined = match parse_joined(parser) {
                Ok(p) => p,
                Err(e) => {
                    return Err(e);
                },
            };
            match parser.expect(' ') {
                Ok(_) => (),
                Err(e) => {
                    return Err(e);
                },
            }
            let ghost sig2_pos = parser.pos_v();
            let _renamed_signature = match MethodSignature::parse(parser) {
                Ok(t) => t,
                Err(e) => {
                    return Err(e);
                },
            };
            proof {
                parser.lemma_pos_bounds();
                crate::model::lemma_take_sig(s, sig2_pos);
            }
            let original_data = MethodData::new(
                original_joined.1,
                original_joined.0,
                original_signature,
            );
            self.result.set_method_name(original_data, renamed_joined.1);
            proof {
                assert(srg_line_parsed(st0, s) is Some);
                assert(self.st_v() == srg_line_parsed(st0, s)->Some_0.0);
                assert(parser.pos_v() == srg_line_parsed(st0, s)->Some_0.1);
            }
        } else if crate::utils::str_eq(prefix, "FD") {
            match parser.expect_str("FD: ") {
                Ok(_) => (),
                Err(e) => {
                    return Err(e);
                },
            }
            let original_joined = match parse_joined(parser) {
                Ok(p) => p,
                Err(e) => {
                    return Err(e);
                },
            };
            match parser.expect(' ') {
                Ok(_) => (),
                Err(e) => {
                    return Err(e);
                },
            }
            let renamed_joined = match parse_joined(parser) {
                Ok(p) => p,
                Err(e) => {
                    return Err(e);
                },
            };
            let original_data = FieldData::new(original_joined.1, original_joined.0);
            self.result.set_field_name(original_data, renamed_joined.1);
            proof {
                assert(srg_line_parsed(st0, s) is Some);
                assert(self.st_v() == srg_line_parsed(st0, s)->Some_0.0);
                assert(parser.pos_v() == srg_line_parsed(st0, s)->Some_0.1);
            }
        } else if crate::utils::str_eq(prefix, "CL") {
            match parser.expect_str("CL: ") {
                Ok(_) => (),
                Err(e) => {
                    return Err(e);
                },
            }
            let original = match parse_ref_token(parser) {
                Ok(t) => t,
                Err(e) => {
                    return Err(e);
                },
            };
            match parser.expect(' ') {
                Ok(_) => (),
                Err(e) => {
                    return Err(e);
                },
            }
            let renamed = match parse_ref_token(parser) {
                Ok(t) => t,
                Err(e) => {
                    return Err(e);
                },
            };
            self.result.set_remapped_class(original, renamed);
            proof {
                assert(srg_line_parsed(st0, s) is Some);
                assert(self.st_v() == srg_line_parsed(st0, s)->Some_0.0);
                assert(parser.pos_v() == srg_line_parsed(st0, s)->Some_0.1);
            }
        } else if crate::utils::str_eq(prefix, "PK") {
            match parser.expect_str("PK: ") {
                Ok(_) => (),
                Err(e) => {
                    return Err(e);
                },
            }
            let not_space = (|ch: char| -> (b: bool) ensures b == (ch == ' ') { ch == ' ' });
            let ghost pk_pos = parser.pos_v();
            let key_tok = parser.take_until(not_space);
            proof {
                lemma_token_end(s, pk_pos);
                assert(parser.pos_v() == token_end(s, pk_pos)) by {
                    let stop = token_end(s, pk_pos);
                    if parser.pos_v() < stop {
                        assert(s[parser.pos_v()] == ' ');
                    }
                    if stop < parser.pos_v() {
                        assert(s[stop] != ' ');
                    }
                }
            }
            let mut original = String::from_str(key_tok);
            if crate::utils::str_eq(key_tok, "./") {
                original = String::new();
            }
            match parser.expect(' ') {
                Ok(_) => (),
                Err(e) => {
                    return Err(e);
                },
            }
            let renamed = match crate::format::parse_clean_token(parser) {
                Ok(tok) => String::from_str(tok),
                Err(e) => {
                    return Err(e);
                },
            };
            proof {
                assert forall|i: int, j: int|
                    0 <= i < tbl_insert(self.packages.map_v(), original@, renamed@).len() && 0 <= j
                        < tbl_insert(self.packages.map_v(), original@, renamed@)[i].1.len() implies
                    tbl_insert(self.packages.map_v(), original@, renamed@)[i].1[j] != '.'
                        && tbl_insert(self.packages.map_v(), original@, renamed@)[i].1[j] != ';' by {
                    let t = tbl_insert(self.packages.map_v(), original@, renamed@);
                    crate::model::lemma_key_index(self.packages.map_v(), original@);
                    if crate::model::has_key(self.packages.map_v(), original@) {
                        let ki = crate::model::key_index(self.packages.map_v(), original@);
                        if i == ki {
                            assert(t[i].1 == renamed@);
                        } else {
                            assert(t[i] == self.packages.map_v()[i]);
                        }
                    } else {
                        if i < self.packages.map_v().len() {
                            assert(t[i] == self.packages.map_v()[i]);
                        } else {
                            assert(t[i].1 == renamed@);
                        }
                    }
                }
            }
            self.packages.insert(original, renamed);
            proof {
                assert(srg_line_parsed(st0, s) is Some);
                assert(self.st_v() == srg_line_parsed(st0, s)->Some_0.0);
                assert(parser.pos_v() == srg_line_parsed(st0, s)->Some_0.1);
            }
        } else {
            return Err(parser.error());
        }
        let ghost pe = parser.pos_v();
        proof {
            parser.lemma_pos_bounds();
            lemma_nonspace_at(s, pe);
        }
        parser.skip_whitespace();
        match parser.ensure_finished() {
            Ok(_) => Ok(()),
            Err(e) => Err(e),
        }
    }

    /// Processes one line, tagging any scan failure with the line text.
    pub fn process_line(&mut self, s: &str) -> (r: Result<(), MappingsParseError>)
        requires
            old(self).wf(),
        ensures
            final(self).wf(),
            r is Ok <==> srg_line_v(old(self).st_v(), s@) is Some,
            r is Ok ==> final(self).st_v() == srg_line_v(old(self).st_v(), s@)->Some_0,
            r matches Err(MappingsParseError::InvalidLine { line, line_number, index, .. })
                ==> line@ == s@ && line_number == 0 && index <= s@.len(),
    {
        let mut parser = SimpleParser::new(s);
        match self.parse_line(&mut parser) {
            Ok(_) => Ok(()),
            Err(cause) => Err(
                MappingsParseError::InvalidLine {
                    index: cause.index,
                    line_number: 0,
                    line: String::from_str(s),
                    reason: cause.reason,
                },
            ),
        }
    }

    /// Freezes what was collected and applies the package renames.
    pub fn finish(self) -> (r: Result<FrozenMappings, MappingsParseError>)
        requires
            self.wf(),
        ensures
            r is Ok,
            r matches Ok(m) ==> {
                &&& m.wf()
                &&& Some((m.classes_v(), m.fields_v(), m.methods_v())) == srg_finished(self.st_v())
            },
    {
        let frozen = self.result.frozen();
        let moved = frozen.transform_packages(&self.packages);
        proof {
            assert(transformed_classes(&self.packages, frozen.classes_v())
                =~= crate::mappings::transformer::repackaged_classes(
                self.packages.map_v(),
                frozen.classes_v(),
            ));
            assert(transformed_field_names(&self.packages, frozen.fields_v())
                =~= crate::mappings::transformer::names_of_fields(frozen.fields_v()));
            assert(transformed_method_names(&self.packages, frozen.methods_v())
                =~= crate::mappings::transformer::names_of_methods(frozen.methods_v()));
        }
        Ok(moved)
    }
}

/// The finished mapping of a state: the builder frozen, then its classes
/// moved to their renamed packages.
pub open spec fn srg_finished(st: SrgSt) -> Option<(ClassesV, FieldsV, MethodsV)> {
    let frozen_classes = st.0.0;
    let frozen_fields = resolve_field_entries(st.0.0, st.0.1);
    let frozen_methods = resolve_method_entries(st.0.0, st.0.2);
    let moved_classes = crate::mappings::transformer::repackaged_classes(st.1, frozen_classes);
    Some(
        (
            moved_classes,
            resolve_field_entries(
                moved_classes,
                crate::mappings::transformer::names_of_fields(frozen_fields),
            ),
            resolve_method_entries(
                moved_classes,
                crate::mappings::transformer::names_of_methods(frozen_methods),
            ),
        ),
    )
}

/// A whole prefixed text, finished.
pub open spec fn srg_parsed_mappings(lines: Seq<Seq<char>>) -> Option<(ClassesV, FieldsV, MethodsV)> {
    match srg_run(empty_srg(), lines) {
        Some(st) => srg_finished(st),
        None => None,
    }
}

/// The prefixed mappings dialect.
pub struct SrgMappingsFormat;

impl SrgMappingsFormat {
    pub fn processor() -> (r: SrgLineProcessor)
        ensures
            r.wf(),
            r.st_v() == empty_srg(),
    {
        SrgLineProcessor::new()
    }

    /// Parses a sequence of prefixed lines into a frozen mapping.
    pub fn parse_lines(lines: &Vec<String>) -> (r: Result<FrozenMappings, MappingsParseError>)
        ensures
            r is Ok <==> srg_run(empty_srg(), lines@.map_values(|l: String| l@)) is Some,
            r matches Ok(m) ==> {
                &&& m.wf()
                &&& Some((m.classes_v(), m.fields_v(), m.methods_v())) == srg_parsed_mappings(
                    lines@.map_values(|l: String| l@),
                )
            },
            r matches Err(MappingsParseError::InvalidLine { line, line_number, index, .. })
                ==> exists|i: int|
                #![trigger lines@[i]]
                {
                    let lvs = lines@.map_values(|l: String| l@);
                    &&& 0 <= i < lvs.len()
                    &&& srg_run(empty_srg(), lvs.take(i)) is Some
                    &&& srg_line_v(srg_run(empty_srg(), lvs.take(i))->Some_0, lvs[i]) is None
                    &&& line@ == lvs[i]
                    &&& line_number == i + 1
                    &&& index <= line@.len()
                },
    {
        let ghost lvs = lines@.map_values(|l: String| l@);
        let mut processor = SrgLineProcessor::new();
        let n = lines.len();
        let mut i: usize = 0;
        while i < n
            invariant
                processor.wf(),
                lvs == lines@.map_values(|l: String| l@),
                n == lines@.len(),
                0 <= i <= n,
                srg_run(empty_srg(), lvs.take(i as int)) == Some(processor.st_v()),
            decreases n - i,
        {
            proof {
                assert(lvs.take(i + 1).drop_last() =~= lvs.take(i as int));
                assert(lvs.take(i + 1).last() == lvs[i as int]);
            }
            match processor.process_line(lines[i].as_str()) {
                Ok(_) => (),
                Err(e) => {
                    proof {
                        lemma_srg_run_extends_none(lvs, i as int);
                    }
                    match e {
                        MappingsParseError::InvalidLine { line, index, reason, .. } => {
                            return Err(
                                MappingsParseError::InvalidLine {
                                    line,
                                    line_number: i + 1,
                                    index,
                                    reason,
                                },
                            );
                        },
                    }
                },
            }
            i = i + 1;
        }
        proof {
            assert(lvs.take(n as int) =~= lvs);
        }
        processor.finish()
    }

    /// Parses a whole prefixed text.
    pub fn parse_text(text: &str) -> (r: Result<FrozenMappings, MappingsParseError>)
        ensures
            r is Ok <==> srg_run(empty_srg(), split_lines_v(text@)) is Some,
            r matches Ok(m) ==> {
                &&& m.wf()
                &&& Some((m.classes_v(), m.fields_v(), m.methods_v())) == srg_parsed_mappings(
                    split_lines_v(text@),
                )
            },
            r matches Err(MappingsParseError::InvalidLine { line, line_number, index, .. })
                ==> exists|i: int|
                #![trigger split_lines_v(text@)[i]]
                {
                    let lvs = split_lines_v(text@);
                    &&& 0 <= i < lvs.len()
                    &&& srg_run(empty_srg(), lvs.take(i)) is Some
                    &&& srg_line_v(srg_run(empty_srg(), lvs.take(i))->Some_0, lvs[i]) is None
                    &&& line@ == lvs[i]
                    &&& line_number == i + 1
                    &&& index <= line@.len()
                },
    {
        let lines = split_lines(text);
        SrgMappingsFormat::parse_lines(&lines)
    }

    /// Writes the mapping in the prefixed dialect.
    #[verifier::rlimit(60)]
    pub fn write_string(mappings: &FrozenMappings) -> (r: String)
        requires
            mappings.wf(),
        ensures
            r@ == srg_render(mappings.classes_v(), mappings.fields_v(), mappings.methods_v()),
    {
        let mut out = String::new();
        let n = mappings.class_count();
        let mut i: usize = 0;
        while i < n
            invariant
                mappings.wf(),
                n == mappings.classes_v().len(),
                0 <= i <= n,
                out@ == srg_class_lines(mappings.classes_v().take(i as int)),
            decreases n - i,
        {
            let e = mappings.class_at(i);
            proof {
                assert(mappings.classes_v().take(i + 1).drop_last() =~= mappings.classes_v().take(
                    i as int,
                ));
            }
            out.append("CL: ");
            out.append(e.0.internal_name().as_str());
            crate::utils::push_char(&mut out, ' ');
            out.append(e.1.internal_name().as_str());
            crate::utils::push_char(&mut out, '\n');
            i = i + 1;
        }
        proof {
            assert(mappings.classes_v().take(n as int) =~= mappings.classes_v());
        }
        let ghost base = out@;
        let n = mappings.field_count();
        let mut i: usize = 0;
        while i < n
            invariant
                mappings.wf(),
                n == mappings.fields_v().len(),
                0 <= i <= n,
                out@ == base + srg_field_lines(mappings.fields_v().take(i as int)),
                base == srg_class_lines(mappings.classes_v()),
            decreases n - i,
        {
            let e = mappings.field_at(i);
            proof {
                assert(mappings.fields_v().take(i + 1).drop_last() =~= mappings.fields_v().take(
                    i as int,
                ));
            }
            out.append("FD: ");
            out.append(e.0.internal_name().as_str());
            crate::utils::push_char(&mut out, ' ');
            out.append(e.1.internal_name().as_str());
            crate::utils::push_char(&mut out, '\n');
            i = i + 1;
        }
        proof {
            assert(mappings.fields_v().take(n as int) =~= mappings.fields_v());
        }
        let ghost base2 = out@;
        let n = mappings.method_count();
        let mut i: usize = 0;
        while i < n
            invariant
                mappings.wf(),
                n == mappings.methods_v().len(),
                0 <= i <= n,
                out@ == base2 + srg_method_lines(mappings.methods_v().take(i as int)),
                base2 == srg_class_lines(mappings.classes_v()) + srg_field_lines(
                    mappings.fields_v(),
                ),
            decreases n - i,
        {
            let e = mappings.method_at(i);
            proof {
                assert(mappings.methods_v().take(i + 1).drop_last() =~= mappings.methods_v().take(
                    i as int,
                ));
            }
            out.append("MD: ");
            out.append(e.0.internal_name().as_str());
            crate::utils::push_char(&mut out, ' ');
            out.append(e.0.signature().descriptor_as_str());
            crate::utils::push_char(&mut out, ' ');
            out.append(e.1.internal_name().as_str());
            crate::utils::push_char(&mut out, ' ');
            out.append(e.1.signature().descriptor_as_str());
            crate::utils::push_char(&mut out, '\n');
            i = i + 1;
        }
        proof {
            assert(mappings.methods_v().take(n as int) =~= mappings.methods_v());
        }
        out
    }

    /// Writes the mapping and splits it into lines.
    pub fn write_line_array(mappings: &FrozenMappings) -> (r: Vec<String>)
        requires
            mappings.wf(),
        ensures
            r@.map_values(|l: String| l@) == split_lines_v(
                srg_render(mappings.classes_v(), mappings.fields_v(), mappings.methods_v()),
            ),
    {
        let text = SrgMappingsFormat::write_string(mappings);
        split_lines(text.as_str())
    }
}

/// The prefixed class lines, in table order.
pub open spec fn srg_class_lines(c: ClassesV) -> Seq<char>
    decreases c.len(),
{
    if c.len() == 0 {
        Seq::<char>::empty()
    } else {
        srg_class_lines(c.drop_last()) + "CL: "@ + ref_internal_name(c.last().0) + seq![' ']
            + ref_internal_name(c.last().1) + seq!['\n']
    }
}

/// The prefixed field lines, with joined names on both sides.
pub open spec fn srg_field_lines(f: FieldsV) -> Seq<char>
    decreases f.len(),
{
    if f.len() == 0 {
        Seq::<char>::empty()
    } else {
        srg_field_lines(f.drop_last()) + "FD: "@ + ref_internal_name(f.last().0.0) + seq!['/']
            + f.last().0.1 + seq![' '] + ref_internal_name(f.last().1.0) + seq!['/']
            + f.last().1.1 + seq!['\n']
    }
}

/// The prefixed method lines, with joined names and signatures on both
/// sides.
pub open spec fn srg_method_lines(m: MethodsV) -> Seq<char>
    decreases m.len(),
{
    if m.len() == 0 {
        Seq::<char>::empty()
    } else {
        srg_method_lines(m.drop_last()) + "MD: "@ + ref_internal_name(m.last().0.0) + seq!['/']
            + m.last().0.1 + seq![' '] + m.last().0.2 + seq![' '] + ref_internal_name(
            m.last().1.0,
        ) + seq!['/'] + m.last().1.1 + seq![' '] + m.last().1.2 + seq!['\n']
    }
}

/// The whole prefixed text: classes, then fields, then methods.
pub open spec fn srg_render(c: ClassesV, f: FieldsV, m: MethodsV) -> Seq<char> {
    srg_class_lines(c) + srg_field_lines(f) + srg_method_lines(m)
}

/// Once a prefix of the lines fails, the whole run fails.
pub proof fn lemma_srg_run_extends_none(lines: Seq<Seq<char>>, i: int)
    requires
        0 <= i < lines.len(),
        srg_run(empty_srg(), lines.take(i + 1)) is None,
    ensures
        srg_run(empty_srg(), lines) is None,
    decreases lines.len() - i,
{
    if i + 1 < lines.len() {
        assert(lines.take(i + 2).drop_last() =~= lines.take(i + 1));
        lemma_srg_run_extends_none(lines, i + 1);
    } else {
        assert(lines.take(i + 1) =~= lines);
    }
}

} // verus!
