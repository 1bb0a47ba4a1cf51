//! Method signatures and the field/method identity keys of a mapping.

use vstd::prelude::*;
use vstd::string::StrSliceExecFns;
use vstd::string::StringExecFns;

use crate::model::lemma_take_sig;
use crate::model::lemma_take_type_end_bounds;
use crate::model::ref_internal_name;
use crate::model::sig_render;
use crate::model::take_params;
use crate::model::take_sig;
use crate::model::take_type_end;
use crate::model::valid_sig_desc;
use crate::types::JavaType;
use crate::types::ReferenceType;
use crate::types::TypeDescriptor;
use crate::utils::push_char;
use crate::utils::SimpleParse;
use crate::utils::SimpleParseError;
use crate::utils::SimpleParser;

verus! {

/// A method signature: a return type and ordered parameter types, with
/// the descriptor `(<params>)<ret>` memoized at construction.
#[derive(Debug)]
pub struct MethodSignature {
    descriptor: String,
    return_type: TypeDescriptor,
    parameter_types: Vec<TypeDescriptor>,
}

impl View for MethodSignature {
    type V = Seq<char>;

    closed spec fn view(&self) -> Seq<char> {
        self.descriptor@
    }
}

impl Clone for MethodSignature {
    fn clone(&self) -> (res: Self)
        ensures
            res@ == self@,
            res.params_v() == self.params_v(),
            res.ret_v() == self.ret_v(),
            res.wf() == self.wf(),
    {
        let mut parameter_types: Vec<TypeDescriptor> = Vec::new();
        let mut i: usize = 0;
        while i < self.parameter_types.len()
            invariant
                0 <= i <= self.parameter_types.len(),
                parameter_types@ =~= self.parameter_types@.subrange(0, i as int),
            decreases self.parameter_types.len() - i,
        {
            parameter_types.push(self.parameter_types[i].clone());
            i = i + 1;
        }
        proof {
            assert(parameter_types@ == self.parameter_types@);
        }
        MethodSignature {
            descriptor: self.descriptor.clone(),
            return_type: self.return_type.clone(),
            parameter_types,
        }
    }
}

impl PartialEq for MethodSignature {
    fn eq(&self, other: &Self) -> (r: bool) {
        self.descriptor == other.descriptor
    }
}

impl vstd::std_specs::cmp::PartialEqSpecImpl for MethodSignature {
    open spec fn obeys_eq_spec() -> bool {
        true
    }

    open spec fn eq_spec(&self, other: &Self) -> bool {
        self@ == other@
    }
}

impl MethodSignature {
    /// The parameter descriptors, in order.
    pub closed spec fn params_v(&self) -> Seq<Seq<char>> {
        self.parameter_types@.map_values(|t: TypeDescriptor| t@)
    }

    /// The return-type descriptor.
    pub closed spec fn ret_v(&self) -> Seq<char> {
        self.return_type@
    }

    /// The memoized descriptor renders the parts, and every part is a
    /// well-formed type.
    pub closed spec fn wf(&self) -> bool {
        &&& self.descriptor@ == sig_render(self.params_v(), self.ret_v())
        &&& self.return_type.wf()
        &&& forall|i: int|
            0 <= i < self.parameter_types@.len() ==> (#[trigger] self.parameter_types@[i]).wf()
    }

    /// Builds a signature from its parts and renders the descriptor once.
    pub fn new(return_type: TypeDescriptor, parameter_types: Vec<TypeDescriptor>) -> (r:
        MethodSignature)
        requires
            return_type.wf(),
            forall|i: int|
                0 <= i < parameter_types@.len() ==> (#[trigger] parameter_types@[i]).wf(),
        ensures
            r.wf(),
            r.params_v() == parameter_types@.map_values(|t: TypeDescriptor| t@),
            r.ret_v() == return_type@,
            r@ == sig_render(parameter_types@.map_values(|t: TypeDescriptor| t@), return_type@),
    {
        let ghost ps = parameter_types@.map_values(|t: TypeDescriptor| t@);
        let mut descriptor = String::new();
        push_char(&mut descriptor, '(');
        let mut i: usize = 0;
        while i < parameter_types.len()
            invariant
                0 <= i <= parameter_types@.len(),
                ps == parameter_types@.map_values(|t: TypeDescriptor| t@),
                descriptor@ == seq!['('] + ps.take(i as int).flatten(),
            decreases parameter_types.len() - i,
        {
            descriptor.append(parameter_types[i].descriptor_ref());
            proof {
                ps.take(i as int).lemma_flatten_push(ps[i as int]);
                assert(ps.take(i as int).push(ps[i as int]) =~= ps.take(i + 1));
                assert(descriptor@ =~= seq!['('] + ps.take(i + 1).flatten());
            }
            i = i + 1;
        }
        push_char(&mut descriptor, ')');
        descriptor.append(return_type.descriptor_ref());
        let r = MethodSignature { descriptor, return_type, parameter_types };
        proof {
            assert(ps.take(ps.len() as int) =~= ps);
            assert(r.descriptor@ =~= sig_render(ps, r.return_type@));
        }
        r
    }

    /// Parses a whole descriptor string, which the caller asserts is a
    /// valid signature descriptor.
    pub fn from_descriptor(s: &str) -> (r: MethodSignature)
        requires
            valid_sig_desc(s@),
        ensures
            r.wf(),
            r@ == s@,
    {
        match MethodSignature::parse_descriptor(s) {
            Some(sig) => sig,
            None => vstd::pervasive::unreached(),
        }
    }

    /// Parses a whole descriptor string into a signature.
    pub fn parse_descriptor(s: &str) -> (r: Option<MethodSignature>)
        ensures
            r is Some <==> valid_sig_desc(s@),
            r matches Some(t) ==> {
                &&& t.wf()
                &&& t@ == s@
                &&& t.params_v() == take_sig(s@, 0)->Some_0.0
                &&& t.ret_v() == take_sig(s@, 0)->Some_0.1
            },
    {
        let mut parser = SimpleParser::new(s);
        let parsed = match MethodSignature::parse(&mut parser) {
            Ok(t) => t,
            Err(_) => {
                return None;
            },
        };
        match parser.ensure_finished() {
            Ok(_) => {
                proof {
                    assert(s@.subrange(0, s@.len() as int) =~= s@);
                }
                Some(parsed)
            },
            Err(_) => None,
        }
    }

    /// A well-formed signature has valid parameter and return descriptors.
    pub proof fn lemma_sig_parts_valid(&self)
        requires
            self.wf(),
        ensures
            crate::model::valid_type_desc(self.ret_v()),
            forall|i: int|
                0 <= i < self.params_v().len() ==> crate::model::valid_type_desc(
                    #[trigger] self.params_v()[i],
                ),
            self@ == sig_render(self.params_v(), self.ret_v()),
    {
        crate::types::lemma_wf_valid(&self.return_type);
        assert forall|i: int|
            0 <= i < self.params_v().len() implies crate::model::valid_type_desc(
            #[trigger] self.params_v()[i],
        ) by {
            assert(self.params_v()[i] == self.parameter_types@[i]@);
            crate::types::lemma_wf_valid(&self.parameter_types@[i]);
        }
    }

    /// The canonical descriptor `(<params>)<ret>`.
    pub fn descriptor(&self) -> (r: String)
        ensures
            r@ == self@,
    {
        self.descriptor.clone()
    }

    /// The descriptor, borrowed.
    pub fn descriptor_as_str(&self) -> (r: &str)
        ensures
            r@ == self@,
    {
        self.descriptor.as_str()
    }

    pub fn return_type(&self) -> (r: &TypeDescriptor)
        ensures
            r@ == self.ret_v(),
            self.wf() ==> r.wf(),
    {
        &self.return_type
    }

    pub fn parameter_types(&self) -> (r: &Vec<TypeDescriptor>)
        ensures
            r@.map_values(|t: TypeDescriptor| t@) == self.params_v(),
            self.wf() ==> forall|i: int| 0 <= i < r@.len() ==> (#[trigger] r@[i]).wf(),
    {
        &self.parameter_types
    }
}

impl SimpleParse for MethodSignature {
    fn parse(parser: &mut SimpleParser) -> (r: Result<Self, SimpleParseError>)
        ensures
            r is Ok <==> take_sig(old(parser).text_v(), old(parser).pos_v()) is Some,
            r matches Ok(t) ==> {
                &&& final(parser).pos_v() == take_sig(
                    old(parser).text_v(),
                    old(parser).pos_v(),
                )->Some_0.2
                &&& t.wf()
                &&& t@ == old(parser).text_v().subrange(old(parser).pos_v(), final(parser).pos_v())
                &&& t.params_v() == take_sig(old(parser).text_v(), old(parser).pos_v())->Some_0.0
                &&& t.ret_v() == take_sig(old(parser).text_v(), old(parser).pos_v())->Some_0.1
            },
    {
        let ghost s = parser.text_v();
        let ghost from = parser.pos_v();
        proof {
            parser.lemma_pos_bounds();
        }
        let start = parser.current_index();
        match parser.expect('(') {
            Ok(_) => (),
            Err(e) => {
                return Err(e);
            },
        }
        let mut parameter_types: Vec<TypeDescriptor> = Vec::new();
        loop
            invariant_except_break
                take_params(s, from + 1) == (match take_params(s, parser.pos_v()) {
                    Some((ps, e)) => Some(
                        (parameter_types@.map_values(|t: TypeDescriptor| t@) + ps, e),
                    ),
                    None => None::<(Seq<Seq<char>>, int)>,
                }),
            invariant
                parser.wf(),
                s == old(parser).text_v(),
                from == old(parser).pos_v(),
                0 <= from < s.len(),
                s[from] == '(',
                parser.text_v() == s,
                from + 1 <= parser.pos_v() <= s.len(),
                forall|i: int|
                    0 <= i < parameter_types@.len() ==> (#[trigger] parameter_types@[i]).wf(),
            ensures
                parser.wf(),
                parser.text_v() == s,
                from + 1 <= parser.pos_v() <= s.len(),
                forall|i: int|
                    0 <= i < parameter_types@.len() ==> (#[trigger] parameter_types@[i]).wf(),
                take_params(s, from + 1) == Some(
                    (parameter_types@.map_values(|t: TypeDescriptor| t@), parser.pos_v()),
                ),
            decreases s.len() - parser.pos_v(),
        {
            let ghost ps_before = parameter_types@.map_values(|t: TypeDescriptor| t@);
            let ghost pos_before = parser.pos_v();
            let c = match parser.peek() {
                Ok(c) => c,
                Err(e) => {
                    return Err(e);
                },
            };
            if c == ')' {
                parser.skip(1);
                proof {
                    assert(take_params(s, pos_before) == Some(
                        (Seq::<Seq<char>>::empty(), pos_before + 1),
                    ));
                    assert(ps_before + Seq::<Seq<char>>::empty() =~= ps_before);
                }
                break;
            }
            let t = match TypeDescriptor::parse(parser) {
                Ok(t) => t,
                Err(e) => {
                    return Err(e);
                },
            };
            proof {
                lemma_take_type_end_bounds(s, pos_before);
                let e = take_type_end(s, pos_before)->Some_0;
                assert(take_params(s, pos_before) == (match take_params(s, e) {
                    Some((ps, e2)) => Some((seq![s.subrange(pos_before, e)].add(ps), e2)),
                    None => None::<(Seq<Seq<char>>, int)>,
                }));
                if take_params(s, e) is Some {
                    let ps = take_params(s, e)->Some_0.0;
                    let e2 = take_params(s, e)->Some_0.1;
                    assert(ps_before + (seq![s.subrange(pos_before, e)].add(ps)) =~= (ps_before
                        + seq![s.subrange(pos_before, e)]) + ps);
                }
            }
            parameter_types.push(t);
            proof {
                assert(parameter_types@.map_values(|t: TypeDescriptor| t@) =~= ps_before + seq![
                    s.subrange(pos_before, parser.pos_v()),
                ]);
            }
        }
        let return_type = match TypeDescriptor::parse(parser) {
            Ok(t) => t,
            Err(e) => {
                return Err(e);
            },
        };
        let end = parser.current_index();
        let desc = parser.original().substring_char(start, end);
        let r = MethodSignature {
            descriptor: String::from_str(desc),
            return_type,
            parameter_types,
        };
        proof {
            lemma_take_sig(s, from);
            assert(r.descriptor@ =~= s.subrange(from, parser.pos_v()));
        }
        Ok(r)
    }
}

/// A field identity: declaring type and field name.
#[derive(Debug)]
pub struct FieldData {
    pub name: String,
    declaring_type: ReferenceType,
}

impl View for FieldData {
    type V = (Seq<char>, Seq<char>);

    closed spec fn view(&self) -> (Seq<char>, Seq<char>) {
        (self.declaring_type@, self.name@)
    }
}

impl Clone for FieldData {
    fn clone(&self) -> (res: Self)
        ensures
            res == *self,
    {
        FieldData { name: self.name.clone(), declaring_type: self.declaring_type.clone() }
    }
}

impl PartialEq for FieldData {
    fn eq(&self, other: &Self) -> (r: bool) {
        self.name == other.name && crate::utils::str_eq(
            self.declaring_type.descriptor_as_str(),
            other.declaring_type.descriptor_as_str(),
        )
    }
}

impl vstd::std_specs::cmp::PartialEqSpecImpl for FieldData {
    open spec fn obeys_eq_spec() -> bool {
        true
    }

    open spec fn eq_spec(&self, other: &Self) -> bool {
        self@ == other@
    }
}

impl FieldData {
    /// The declaring type is well formed.
    pub closed spec fn wf(&self) -> bool {
        self.declaring_type.wf()
    }

    pub fn new(name: String, declaring_type: ReferenceType) -> (r: FieldData)
        ensures
            r@ == (declaring_type@, name@),
            r.wf() == declaring_type.wf(),
    {
        FieldData { name, declaring_type }
    }

    /// The declaring type of this field.
    pub fn declaring_type(&self) -> (r: &ReferenceType)
        ensures
            r@ == self@.0,
            self.wf() ==> r.wf(),
    {
        &self.declaring_type
    }

    /// The name of this field.
    pub fn name(&self) -> (r: &str)
        ensures
            r@ == self@.1,
    {
        self.name.as_str()
    }

    /// `<declaring internal name>/<field name>`.
    pub fn internal_name(&self) -> (r: String)
        requires
            self.wf(),
        ensures
            r@ == ref_internal_name(self@.0) + seq!['/'] + self@.1,
    {
        let mut buffer = self.declaring_type.internal_name();
        push_char(&mut buffer, '/');
        buffer.append(self.name.as_str());
        buffer
    }
}

/// A method identity: declaring type, method name and signature.
#[derive(Debug)]
pub struct MethodData {
    pub name: String,
    declaring_type: ReferenceType,
    signature: MethodSignature,
}

impl View for MethodData {
    type V = (Seq<char>, Seq<char>, Seq<char>);

    closed spec fn view(&self) -> (Seq<char>, Seq<char>, Seq<char>) {
        (self.declaring_type@, self.name@, self.signature@)
    }
}

impl Clone for MethodData {
    fn clone(&self) -> (res: Self)
        ensures
            res@ == self@,
            res.wf() == self.wf(),
            res.sig().params_v() == self.sig().params_v(),
            res.sig().ret_v() == self.sig().ret_v(),
    {
        MethodData {
            name: self.name.clone(),
            declaring_type: self.declaring_type.clone(),
            signature: self.signature.clone(),
        }
    }
}

impl PartialEq for MethodData {
    fn eq(&self, other: &Self) -> (r: bool) {
        self.name == other.name && crate::utils::str_eq(
            self.declaring_type.descriptor_as_str(),
            other.declaring_type.descriptor_as_str(),
        ) && crate::utils::str_eq(
            self.signature.descriptor_as_str(),
            other.signature.descriptor_as_str(),
        )
    }
}

impl vstd::std_specs::cmp::PartialEqSpecImpl for MethodData {
    open spec fn obeys_eq_spec() -> bool {
        true
    }

    open spec fn eq_spec(&self, other: &Self) -> bool {
        self@ == other@
    }
}

impl MethodData {
    /// The declaring type and signature are well formed.
    pub closed spec fn wf(&self) -> bool {
        self.declaring_type.wf() && self.signature.wf()
    }

    /// The stored signature value.
    pub closed spec fn sig(&self) -> MethodSignature {
        self.signature
    }

    pub fn new(name: String, declaring_type: ReferenceType, signature: MethodSignature) -> (r:
        MethodData)
        ensures
            r@ == (declaring_type@, name@, signature@),
            r.sig() == signature,
            r.wf() == (declaring_type.wf() && signature.wf()),
    {
        MethodData { name, declaring_type, signature }
    }

    /// The declaring type of this method.
    pub fn declaring_type(&self) -> (r: &ReferenceType)
        ensures
            r@ == self@.0,
            self.wf() ==> r.wf(),
    {
        &self.declaring_type
    }

    /// The name of this method.
    pub fn name(&self) -> (r: &str)
        ensures
            r@ == self@.1,
    {
        self.name.as_str()
    }

    /// The signature of this method.
    pub fn signature(&self) -> (r: &MethodSignature)
        ensures
            r == &self.sig(),
            r@ == self@.2,
            self.wf() ==> r.wf(),
    {
        &self.signature
    }

    /// `<declaring internal name>/<method name>`.
    pub fn internal_name(&self) -> (r: String)
        requires
            self.wf(),
        ensures
            r@ == ref_internal_name(self@.0) + seq!['/'] + self@.1,
    {
        let mut buffer = self.declaring_type.internal_name();
        push_char(&mut buffer, '/');
        buffer.append(self.name.as_str());
        buffer
    }
}

} // verus!
