//! The canonical type model: primitive types, reference types, array
//! types, and the tagged union over them.  Every value carries its
//! canonical descriptor string, and equality is descriptor equality.

use vstd::prelude::*;
use vstd::string::StrSliceExecFns;
use vstd::string::StringExecFns;

use crate::model::brackets;
use crate::model::find_nonbracket;
use crate::model::find_ref_end;
use crate::model::lemma_find_nonbracket_unique;
use crate::model::lemma_find_ref_end_unique;
use crate::model::lemma_leading_brackets_unique;
use crate::model::lemma_take_type_valid;
use crate::model::prim_code;
use crate::model::ref_desc_of;
use crate::model::ref_internal_name;
use crate::model::take_array_end;
use crate::model::take_ref_end;
use crate::model::take_type_end;
use crate::model::valid_array_desc;
use crate::model::valid_prim_desc;
use crate::model::valid_ref_desc;
use crate::model::valid_type_desc;
use crate::utils::push_char;
use crate::utils::str_eq;
use crate::utils::SimpleParse;
use crate::utils::SimpleParseError;
use crate::utils::SimpleParser;

verus! {

/// `s` with every `.` replaced by `/`.
pub open spec fn dots_to_slashes(s: Seq<char>) -> Seq<char> {
    s.map_values(|c: char| if c == '.' { '/' } else { c })
}

/// `s` with every `/` replaced by `.`.
pub open spec fn slashes_to_dots(s: Seq<char>) -> Seq<char> {
    s.map_values(|c: char| if c == '/' { '.' } else { c })
}

/// Index of the last `/` in `s`, or `-1` if there is none.
pub open spec fn last_slash(s: Seq<char>) -> int
    decreases s.len(),
{
    if s.len() == 0 {
        -1
    } else if s[s.len() - 1] == '/' {
        s.len() - 1
    } else {
        last_slash(s.drop_last())
    }
}

pub proof fn lemma_last_slash(s: Seq<char>)
    ensures
        -1 <= last_slash(s) < s.len(),
        last_slash(s) >= 0 ==> s[last_slash(s)] == '/',
        forall|i: int| last_slash(s) < i < s.len() ==> s[i] != '/',
    decreases s.len(),
{
    if s.len() > 0 && s[s.len() - 1] != '/' {
        lemma_last_slash(s.drop_last());
        assert forall|i: int| last_slash(s) < i < s.len() implies s[i] != '/' by {
            if i < s.len() - 1 {
                assert(s.drop_last()[i] == s[i]);
            }
        }
    }
}

/// `d` pairs of `[]` appended after one another.
pub open spec fn box_pairs(d: int) -> Seq<char>
    decreases d,
{
    if d <= 0 {
        Seq::<char>::empty()
    } else {
        box_pairs(d - 1) + seq!['[', ']']
    }
}

/// The nine primitive types, `void` included.  Never remapped.
#[derive(Clone, Copy, Debug, PartialEq, Eq, Structural)]
pub enum PrimitiveType {
    Byte,
    Short,
    Int,
    Long,
    Float,
    Double,
    Char,
    Boolean,
    Void,
}

/// The one-character descriptor code of a primitive type.
pub open spec fn prim_char(p: PrimitiveType) -> char {
    match p {
        PrimitiveType::Byte => 'B',
        PrimitiveType::Short => 'S',
        PrimitiveType::Int => 'I',
        PrimitiveType::Long => 'J',
        PrimitiveType::Float => 'F',
        PrimitiveType::Double => 'D',
        PrimitiveType::Char => 'C',
        PrimitiveType::Boolean => 'Z',
        PrimitiveType::Void => 'V',
    }
}

/// The descriptor of a primitive type, as a one-character sequence.
pub open spec fn prim_desc(p: PrimitiveType) -> Seq<char> {
    seq![prim_char(p)]
}

/// The display name of a primitive type.
pub open spec fn prim_name(p: PrimitiveType) -> Seq<char> {
    match p {
        PrimitiveType::Byte => "byte"@,
        PrimitiveType::Short => "short"@,
        PrimitiveType::Int => "int"@,
        PrimitiveType::Long => "long"@,
        PrimitiveType::Float => "float"@,
        PrimitiveType::Double => "double"@,
        PrimitiveType::Char => "char"@,
        PrimitiveType::Boolean => "boolean"@,
        PrimitiveType::Void => "void"@,
    }
}

/// Each code characterizes its primitive type.
pub proof fn lemma_prim_desc(p: PrimitiveType)
    ensures
        prim_code(prim_char(p)),
        valid_prim_desc(prim_desc(p)),
{
}

/// The primitive type a code character encodes; meaningful only when
/// `prim_code(c)` holds.
pub open spec fn prim_from_char(c: char) -> PrimitiveType {
    if c == 'B' {
        PrimitiveType::Byte
    } else if c == 'S' {
        PrimitiveType::Short
    } else if c == 'I' {
        PrimitiveType::Int
    } else if c == 'J' {
        PrimitiveType::Long
    } else if c == 'F' {
        PrimitiveType::Float
    } else if c == 'D' {
        PrimitiveType::Double
    } else if c == 'C' {
        PrimitiveType::Char
    } else if c == 'Z' {
        PrimitiveType::Boolean
    } else {
        PrimitiveType::Void
    }
}

/// Distinct primitive types carry distinct codes.
pub proof fn lemma_prim_char_injective(p: PrimitiveType, q: PrimitiveType)
    ensures
        prim_char(p) == prim_char(q) ==> p == q,
{
}

impl PrimitiveType {
    /// The one-character descriptor code, as a borrowed string.
    pub fn descriptor_str(self) -> (r: &'static str)
        ensures
            r@ == prim_desc(self),
    {
        proof {
            reveal_strlit("B");
            reveal_strlit("S");
            reveal_strlit("I");
            reveal_strlit("J");
            reveal_strlit("F");
            reveal_strlit("D");
            reveal_strlit("C");
            reveal_strlit("Z");
            reveal_strlit("V");
        }
        match self {
            PrimitiveType::Byte => "B",
            PrimitiveType::Short => "S",
            PrimitiveType::Int => "I",
            PrimitiveType::Long => "J",
            PrimitiveType::Float => "F",
            PrimitiveType::Double => "D",
            PrimitiveType::Char => "C",
            PrimitiveType::Boolean => "Z",
            PrimitiveType::Void => "V",
        }
    }

    /// The primitive type encoded by one code character, if any.
    pub fn from_code(c: char) -> (r: Option<PrimitiveType>)
        ensures
            r is Some <==> prim_code(c),
            r matches Some(p) ==> prim_char(p) == c,
    {
        match c {
            'B' => Some(PrimitiveType::Byte),
            'S' => Some(PrimitiveType::Short),
            'I' => Some(PrimitiveType::Int),
            'J' => Some(PrimitiveType::Long),
            'F' => Some(PrimitiveType::Float),
            'D' => Some(PrimitiveType::Double),
            'C' => Some(PrimitiveType::Char),
            'Z' => Some(PrimitiveType::Boolean),
            'V' => Some(PrimitiveType::Void),
            _ => None,
        }
    }
}

impl SimpleParse for PrimitiveType {
    fn parse(parser: &mut SimpleParser) -> (r: Result<Self, SimpleParseError>)
        ensures
            r is Ok <==> old(parser).pos_v() < old(parser).text_v().len() && prim_code(
                old(parser).text_v()[old(parser).pos_v()],
            ),
            r matches Ok(p) ==> {
                &&& prim_char(p) == old(parser).text_v()[old(parser).pos_v()]
                &&& final(parser).pos_v() == old(parser).pos_v() + 1
            },
            r is Err ==> final(parser).pos_v() == old(parser).pos_v(),
            r matches Err(e) ==> e.index == old(parser).pos_v() && e.reason is None,
    {
        let c = match parser.peek() {
            Ok(c) => c,
            Err(e) => {
                return Err(e);
            },
        };
        let p = match PrimitiveType::from_code(c) {
            Some(p) => p,
            None => {
                return Err(parser.error());
            },
        };
        parser.skip(1);
        Ok(p)
    }
}

/// A class or interface identity, stored as its descriptor `L<name>;`.
#[derive(Debug)]
pub struct ReferenceType {
    descriptor: String,
}

impl View for ReferenceType {
    type V = Seq<char>;

    closed spec fn view(&self) -> Seq<char> {
        self.descriptor@
    }
}

impl Clone for ReferenceType {
    fn clone(&self) -> (res: Self)
        ensures
            res == *self,
    {
        ReferenceType { descriptor: self.descriptor.clone() }
    }
}

impl PartialEq for ReferenceType {
    fn eq(&self, other: &Self) -> (r: bool) {
        self.descriptor == other.descriptor
    }
}

impl vstd::std_specs::cmp::PartialEqSpecImpl for ReferenceType {
    open spec fn obeys_eq_spec() -> bool {
        true
    }

    open spec fn eq_spec(&self, other: &Self) -> bool {
        self@ == other@
    }
}

impl ReferenceType {
    /// The descriptor is a well-formed `L<name>;`.
    pub open spec fn wf(&self) -> bool {
        valid_ref_desc(self@)
    }

    /// The internal, slash-separated name.
    pub open spec fn internal_v(&self) -> Seq<char> {
        ref_internal_name(self@)
    }

    /// Builds a reference type from a dotted or slash-separated name.
    pub fn from_name(name: &str) -> (r: ReferenceType)
        requires
            forall|i: int| 0 <= i < name@.len() ==> name@[i] != ';',
        ensures
            r.wf(),
            r@ == ref_desc_of(dots_to_slashes(name@)),
            r.internal_v() == dots_to_slashes(name@),
    {
        let len = name.unicode_len();
        let mut replaced = String::new();
        let mut i: usize = 0;
        while i < len
            invariant
                len == name@.len(),
                0 <= i <= len,
                forall|j: int| 0 <= j < name@.len() ==> name@[j] != ';',
                replaced@ == dots_to_slashes(name@.subrange(0, i as int)),
            decreases len - i,
        {
            let c = name.get_char(i);
            if c == '.' {
                push_char(&mut replaced, '/');
            } else {
                push_char(&mut replaced, c);
            }
            proof {
                assert(replaced@ =~= dots_to_slashes(name@.subrange(0, i + 1)));
            }
            i = i + 1;
        }
        proof {
            assert(name@.subrange(0, name@.len() as int) =~= name@);
        }
        let r = Self::from_internal_name(replaced.as_str());
        proof {
            assert(r.internal_v() =~= dots_to_slashes(name@));
        }
        r
    }

    /// Builds a reference type from an internal name, which must use `/`
    /// separators: a `.` or a `;` in it is a contract violation.
    pub fn from_internal_name(name: &str) -> (r: ReferenceType)
        requires
            forall|i: int| 0 <= i < name@.len() ==> name@[i] != '.' && name@[i] != ';',
        ensures
            r.wf(),
            r@ == ref_desc_of(name@),
            r.internal_v() == name@,
    {
        let mut descriptor = String::new();
        push_char(&mut descriptor, 'L');
        descriptor.append(name);
        push_char(&mut descriptor, ';');
        let r = ReferenceType { descriptor };
        proof {
            assert(r@ =~= ref_desc_of(name@));
            assert(r.internal_v() =~= name@);
            assert forall|i: int| 1 <= i < r@.len() - 1 implies r@[i] != '.' && r@[i] != ';' by {
                assert(r@[i] == name@[i - 1]);
            }
        }
        r
    }

    /// The canonical descriptor `L<name>;`.
    pub fn descriptor(&self) -> (r: String)
        ensures
            r@ == self@,
    {
        self.descriptor.clone()
    }

    /// The slash-separated internal name.
    pub fn internal_name(&self) -> (r: String)
        requires
            self.wf(),
        ensures
            r@ == self.internal_v(),
    {
        let len = self.descriptor.as_str().unicode_len();
        String::from_str(self.descriptor.as_str().substring_char(1, len - 1))
    }

    /// The dotted display name.
    pub fn name(&self) -> (r: String)
        requires
            self.wf(),
        ensures
            r@ == slashes_to_dots(self.internal_v()),
    {
        let internal = self.internal_name();
        let len = internal.as_str().unicode_len();
        let mut replaced = String::new();
        let mut i: usize = 0;
        while i < len
            invariant
                len == internal@.len(),
                0 <= i <= len,
                replaced@ == slashes_to_dots(internal@.subrange(0, i as int)),
            decreases len - i,
        {
            let c = internal.as_str().get_char(i);
            if c == '/' {
                push_char(&mut replaced, '.');
            } else {
                push_char(&mut replaced, c);
            }
            proof {
                assert(replaced@ =~= slashes_to_dots(internal@.subrange(0, i + 1)));
            }
            i = i + 1;
        }
        proof {
            assert(internal@.subrange(0, internal@.len() as int) =~= internal@);
        }
        replaced
    }

    /// The package part of the internal name: empty when there is no `/`.
    pub fn package_name(&self) -> (r: String)
        requires
            self.wf(),
        ensures
            last_slash(self.internal_v()) >= 0 ==> r@ == self.internal_v().subrange(
                0,
                last_slash(self.internal_v()),
            ),
            last_slash(self.internal_v()) < 0 ==> r@ == Seq::<char>::empty(),
    {
        let (package, _) = self.split_name();
        package
    }

    /// The simple class name after the last `/`.
    pub fn simple_name(&self) -> (r: String)
        requires
            self.wf(),
        ensures
            r@ == self.internal_v().subrange(
                last_slash(self.internal_v()) + 1,
                self.internal_v().len() as int,
            ),
    {
        let (_, simple) = self.split_name();
        simple
    }

    /// Splits the internal name into package and simple name at the last
    /// `/`; the package is empty when there is none.
    pub fn split_name(&self) -> (r: (String, String))
        requires
            self.wf(),
        ensures
            last_slash(self.internal_v()) >= 0 ==> r.0@ == self.internal_v().subrange(
                0,
                last_slash(self.internal_v()),
            ),
            last_slash(self.internal_v()) < 0 ==> r.0@ == Seq::<char>::empty(),
            r.1@ == self.internal_v().subrange(
                last_slash(self.internal_v()) + 1,
                self.internal_v().len() as int,
            ),
    {
        let internal = self.internal_name();
        let s = internal.as_str();
        let len = s.unicode_len();
        proof {
            lemma_last_slash(internal@);
        }
        let ghost ls = last_slash(internal@);
        let mut i: usize = len;
        // walk backwards to the last slash
        loop
            invariant
                len == internal@.len(),
                s@ == internal@,
                0 <= i <= len,
                ls < i || ls < 0,
                forall|j: int| i <= j < len ==> internal@[j] != '/',
                -1 <= ls < len,
                ls >= 0 ==> internal@[ls] == '/',
                forall|j: int| ls < j < len ==> internal@[j] != '/',
            ensures
                len == internal@.len(),
                i as int == ls + 1,
            decreases i,
        {
            if i == 0 {
                break;
            }
            if s.get_char(i - 1) == '/' {
                break;
            }
            i = i - 1;
        }
        if i == 0 {
            (String::new(), String::from_str(s.substring_char(0, len)))
        } else {
            (
                String::from_str(s.substring_char(0, i - 1)),
                String::from_str(s.substring_char(i, len)),
            )
        }
    }
}

impl SimpleParse for ReferenceType {
    fn parse(parser: &mut SimpleParser) -> (r: Result<Self, SimpleParseError>)
        ensures
            r is Ok <==> (old(parser).pos_v() < old(parser).text_v().len() && old(
                parser,
            ).text_v()[old(parser).pos_v()] == 'L' && take_ref_end(
                old(parser).text_v(),
                old(parser).pos_v(),
            ) is Some),
            r matches Ok(t) ==> {
                &&& final(parser).pos_v() == take_ref_end(
                    old(parser).text_v(),
                    old(parser).pos_v(),
                )->Some_0
                &&& t.wf()
                &&& t@ == old(parser).text_v().subrange(old(parser).pos_v(), final(parser).pos_v())
            },
            r matches Err(e) ==> ({
                let s = old(parser).text_v();
                let from = old(parser).pos_v();
                &&& e.reason is Some
                &&& e.index == (if !(from < s.len() && s[from] == 'L') {
                    from
                } else {
                    find_ref_end(s, from + 1)
                })
            }),
    {
        let ghost s = parser.text_v();
        let ghost from = parser.pos_v();
        let start = parser.current_index();
        match parser.expect('L') {
            Ok(_) => (),
            Err(e) => {
                return Err(e);
            },
        }
        let ref_stop = (|c: char| -> (b: bool)
            ensures
                b == (c == '.' || c == ';'),
            { c == '.' || c == ';' });
        let _name = parser.take_until(ref_stop);
        proof {
            lemma_find_ref_end_unique(s, from + 1, parser.pos_v());
        }
        match parser.expect(';') {
            Ok(_) => (),
            Err(e) => {
                return Err(e);
            },
        }
        let end = parser.current_index();
        let desc = parser.original().substring_char(start, end);
        let r = ReferenceType { descriptor: String::from_str(desc) };
        proof {
            assert(take_type_end(s, from) == take_ref_end(s, from));
            lemma_take_type_valid(s, from);
        }
        Ok(r)
    }
}

/// The type of an array: a dimension count plus a non-array element type.
/// Arrays are flattened into a counter rather than nested.
#[derive(Debug)]
pub struct ArrayType {
    descriptor: String,
    dimensions: usize,
    element_type: ElementType,
}

/// The element of an array: a primitive or a reference, never an array.
#[derive(Debug)]
pub(crate) enum ElementType {
    Primitive(PrimitiveType),
    Reference(ReferenceType),
}

impl ElementType {
    pub(crate) open spec fn desc_v(&self) -> Seq<char> {
        match self {
            ElementType::Primitive(p) => prim_desc(*p),
            ElementType::Reference(t) => t@,
        }
    }

    pub(crate) open spec fn wf(&self) -> bool {
        match self {
            ElementType::Primitive(p) => true,
            ElementType::Reference(t) => t.wf(),
        }
    }

    pub(crate) open spec fn name_v(&self) -> Seq<char> {
        match self {
            ElementType::Primitive(p) => prim_name(*p),
            ElementType::Reference(t) => slashes_to_dots(t.internal_v()),
        }
    }

    pub(crate) open spec fn internal_name_v(&self) -> Seq<char> {
        match self {
            ElementType::Primitive(p) => prim_name(*p),
            ElementType::Reference(t) => t.internal_v(),
        }
    }

    pub(crate) fn name(&self) -> (r: String)
        requires
            self.wf(),
        ensures
            r@ == self.name_v(),
    {
        match self {
            ElementType::Primitive(p) => String::from_str(prim_name_str(*p)),
            ElementType::Reference(t) => t.name(),
        }
    }

    pub(crate) fn descriptor(&self) -> (r: String)
        requires
            self.wf(),
        ensures
            r@ == self.desc_v(),
    {
        match self {
            ElementType::Primitive(p) => String::from_str(p.descriptor_str()),
            ElementType::Reference(t) => t.descriptor(),
        }
    }

    pub(crate) fn internal_name(&self) -> (r: String)
        requires
            self.wf(),
        ensures
            r@ == self.internal_name_v(),
    {
        match self {
            ElementType::Primitive(p) => String::from_str(prim_name_str(*p)),
            ElementType::Reference(t) => t.internal_name(),
        }
    }
}

impl Clone for ElementType {
    fn clone(&self) -> (res: Self)
        ensures
            res == *self,
    {
        match self {
            ElementType::Primitive(p) => ElementType::Primitive(*p),
            ElementType::Reference(t) => ElementType::Reference(t.clone()),
        }
    }
}

/// The display name of a primitive type, as a borrowed string.
pub fn prim_name_str(p: PrimitiveType) -> (r: &'static str)
    ensures
        r@ == prim_name(p),
{
    match p {
        PrimitiveType::Byte => "byte",
        PrimitiveType::Short => "short",
        PrimitiveType::Int => "int",
        PrimitiveType::Long => "long",
        PrimitiveType::Float => "float",
        PrimitiveType::Double => "double",
        PrimitiveType::Char => "char",
        PrimitiveType::Boolean => "boolean",
        PrimitiveType::Void => "void",
    }
}

impl View for ArrayType {
    type V = Seq<char>;

    closed spec fn view(&self) -> Seq<char> {
        self.descriptor@
    }
}

impl Clone for ArrayType {
    fn clone(&self) -> (res: Self)
        ensures
            res == *self,
    {
        ArrayType {
            descriptor: self.descriptor.clone(),
            dimensions: self.dimensions,
            element_type: self.element_type.clone(),
        }
    }
}

impl PartialEq for ArrayType {
    fn eq(&self, other: &Self) -> (r: bool) {
        self.descriptor == other.descriptor
    }
}

impl vstd::std_specs::cmp::PartialEqSpecImpl for ArrayType {
    open spec fn obeys_eq_spec() -> bool {
        true
    }

    open spec fn eq_spec(&self, other: &Self) -> bool {
        self@ == other@
    }
}

impl ArrayType {
    /// The number of dimensions.
    pub closed spec fn dims(&self) -> int {
        self.dimensions as int
    }

    /// The element's descriptor.
    pub closed spec fn elem_v(&self) -> Seq<char> {
        self.element_type.desc_v()
    }

    /// The element's display name.
    pub closed spec fn elem_name_v(&self) -> Seq<char> {
        self.element_type.name_v()
    }

    /// The element's internal name.
    pub closed spec fn elem_internal_v(&self) -> Seq<char> {
        self.element_type.internal_name_v()
    }

    /// The descriptor is the bracket run followed by a well-formed
    /// non-array element descriptor.
    pub closed spec fn wf(&self) -> bool {
        &&& self.dimensions >= 1
        &&& self.element_type.wf()
        &&& self.descriptor@ == brackets(self.dims()) + self.element_type.desc_v()
    }

    /// Builds an array type from a dimension count and a non-array
    /// element type.  Zero dimensions or an array element are contract
    /// violations.
    pub fn new<T: JavaType>(dimensions: usize, element_type: T) -> (r: ArrayType)
        requires
            dimensions >= 1,
            element_type.type_wf(),
            valid_prim_desc(element_type.desc_v()) || valid_ref_desc(element_type.desc_v()),
        ensures
            r.wf(),
            r.dims() == dimensions,
            r.elem_v() == element_type.desc_v(),
            r@ == brackets(dimensions as int) + element_type.desc_v(),
            r.elem_name_v() == element_type.name_v(),
            r.elem_internal_v() == element_type.internal_name_v(),
    {
        let ghost target = element_type.desc_v();
        let ghost target_name = element_type.name_v();
        let ghost target_internal = element_type.internal_name_v();
        let td = element_type.into_type_descriptor();
        let element_type = match td {
            TypeDescriptor::Primitive(p) => ElementType::Primitive(p),
            TypeDescriptor::Reference(t) => ElementType::Reference(t),
            TypeDescriptor::Array(a) => {
                proof {
                    lemma_array_wf_valid(&a);
                    lemma_brackets(a.dims());
                }
                vstd::pervasive::unreached()
            },
        };
        proof {
            assert(element_type.wf());
            assert(element_type.desc_v() == target);
        }
        let mut descriptor = String::new();
        let mut i: usize = 0;
        while i < dimensions
            invariant
                0 <= i <= dimensions,
                descriptor@ == brackets(i as int),
            decreases dimensions - i,
        {
            push_char(&mut descriptor, '[');
            proof {
                lemma_brackets(i as int);
                lemma_brackets(i + 1);
                assert(descriptor@ =~= brackets(i + 1));
            }
            i = i + 1;
        }
        descriptor.append(element_type.descriptor().as_str());
        ArrayType { descriptor, dimensions, element_type }
    }
}

/// A well-formed array descriptor is a valid array descriptor, and its
/// parts can be read off the descriptor.
pub proof fn lemma_array_wf_valid(a: &ArrayType)
    requires
        a.wf(),
    ensures
        valid_array_desc(a@),
        a@.len() >= 2,
        a@[0] == '[',
        a.dims() >= 1,
        a@ == brackets(a.dims()) + a.elem_v(),
        crate::model::leading_brackets(a@) == a.dims(),
        a@.skip(a.dims()) == a.elem_v(),
        valid_prim_desc(a.elem_v()) || valid_ref_desc(a.elem_v()),
        !valid_ref_desc(a@),
{
    lemma_brackets(a.dims());
    let d = a.dims();
    assert forall|i: int| 0 <= i < d implies a@[i] == '[' by {
        assert(a@[i] == brackets(d)[i]);
    }
    assert(a@[d] == a.elem_v()[0]);
    if valid_prim_desc(a.elem_v()) {
        assert(a@[d] != '[');
    } else {
        assert(a.elem_v()[0] == 'L');
        assert(a@[d] != '[');
    }
    lemma_leading_brackets_unique(a@, d);
    assert(a@.skip(d) =~= a.elem_v());
}

/// A well-formed array's name views are a function of its element
/// descriptor: the internal name of the reference it holds, or the
/// display name of the primitive its code denotes.
pub proof fn lemma_array_element_names(a: &ArrayType)
    requires
        a.wf(),
    ensures
        valid_ref_desc(a.elem_v()) ==> a.elem_internal_v() == ref_internal_name(a.elem_v())
            && a.elem_name_v() == slashes_to_dots(ref_internal_name(a.elem_v())),
        valid_prim_desc(a.elem_v()) ==> a.elem_name_v() == prim_name(
            prim_from_char(a.elem_v()[0]),
        ) && a.elem_internal_v() == a.elem_name_v(),
{
    match &a.element_type {
        ElementType::Primitive(p) => {
            lemma_prim_desc(*p);
            assert(prim_from_char(prim_char(*p)) == *p);
            assert(!valid_ref_desc(prim_desc(*p)));
        },
        ElementType::Reference(t) => {
            assert(!valid_prim_desc(t@));
        },
    }
}

/// `brackets(d)` is `d` copies of `[`.
pub proof fn lemma_brackets(d: int)
    ensures
        brackets(d).len() == if d >= 0 {
            d
        } else {
            0
        },
        forall|i: int| 0 <= i < brackets(d).len() ==> brackets(d)[i] == '[',
    decreases d,
{
    if d > 0 {
        lemma_brackets(d - 1);
        assert forall|i: int| 0 <= i < brackets(d).len() implies brackets(d)[i] == '[' by {
            if i > 0 {
                assert(brackets(d)[i] == brackets(d - 1)[i - 1]);
            }
        }
    }
}

impl SimpleParse for ArrayType {
    fn parse(parser: &mut SimpleParser) -> (r: Result<Self, SimpleParseError>)
        ensures
            r is Ok <==> (old(parser).pos_v() < old(parser).text_v().len() && old(
                parser,
            ).text_v()[old(parser).pos_v()] == '[' && take_array_end(
                old(parser).text_v(),
                old(parser).pos_v(),
            ) is Some),
            r matches Ok(t) ==> {
                &&& final(parser).pos_v() == take_array_end(
                    old(parser).text_v(),
                    old(parser).pos_v(),
                )->Some_0
                &&& t.wf()
                &&& t@ == old(parser).text_v().subrange(old(parser).pos_v(), final(parser).pos_v())
                &&& t.dims() == find_nonbracket(old(parser).text_v(), old(parser).pos_v()) - old(
                    parser,
                ).pos_v()
                &&& (valid_ref_desc(t.elem_v()) ==> t.elem_internal_v() == ref_internal_name(
                    t.elem_v(),
                ) && t.elem_name_v() == slashes_to_dots(ref_internal_name(t.elem_v())))
                &&& (valid_prim_desc(t.elem_v()) ==> t.elem_name_v() == prim_name(
                    prim_from_char(t.elem_v()[0]),
                ) && t.elem_internal_v() == t.elem_name_v())
            },
            r matches Err(e) ==> ({
                let s = old(parser).text_v();
                let from = old(parser).pos_v();
                let d = find_nonbracket(s, from);
                if !(from < s.len() && s[from] == '[') {
                    e.index == from && e.reason is Some
                } else if d >= s.len() {
                    e.index == d && e.reason is None
                } else if s[d] == 'L' {
                    e.index == find_ref_end(s, d + 1) && e.reason is Some
                } else {
                    e.index == d && e.reason is None
                }
            }),
    {
        let ghost s = parser.text_v();
        let ghost from = parser.pos_v();
        let start = parser.current_index();
        match parser.expect('[') {
            Ok(_) => (),
            Err(e) => {
                return Err(e);
            },
        }
        let nonbracket = (|c: char| -> (b: bool) ensures b == (c != '[') { c != '[' });
        let more = parser.take_until(nonbracket);
        proof {
            lemma_find_nonbracket_unique(s, from, parser.pos_v());
        }
        let ghost d = find_nonbracket(s, from);
        proof {
            parser.lemma_text_len();
        }
        let dimensions = 1 + more.unicode_len();
        let c = match parser.peek() {
            Ok(c) => c,
            Err(e) => {
                return Err(e);
            },
        };
        let element_type = if c == 'L' {
            let t = match ReferenceType::parse(parser) {
                Ok(t) => t,
                Err(e) => {
                    return Err(e);
                },
            };
            ElementType::Reference(t)
        } else {
            let p = match PrimitiveType::parse(parser) {
                Ok(p) => p,
                Err(e) => {
                    return Err(e);
                },
            };
            ElementType::Primitive(p)
        };
        let end = parser.current_index();
        let desc = parser.original().substring_char(start, end);
        let r = ArrayType {
            descriptor: String::from_str(desc),
            dimensions,
            element_type,
        };
        proof {
            lemma_brackets(d - from);
            assert(r.descriptor@.subrange(0, d - from) =~= brackets(d - from)) by {
                assert forall|i: int| 0 <= i < d - from implies r.descriptor@[i] == '[' by {
                    assert(r.descriptor@[i] == s[from + i]);
                }
            }
            assert(r.descriptor@ =~= brackets(d - from) + r.element_type.desc_v());
            lemma_array_element_names(&r);
        }
        Ok(r)
    }
}

/// The tagged union over primitive, reference and array types.  Equality
/// is by the canonical descriptor string.
#[derive(Debug)]
pub enum TypeDescriptor {
    Primitive(PrimitiveType),
    Reference(ReferenceType),
    Array(ArrayType),
}

impl View for TypeDescriptor {
    type V = Seq<char>;

    open spec fn view(&self) -> Seq<char> {
        match self {
            TypeDescriptor::Primitive(p) => prim_desc(*p),
            TypeDescriptor::Reference(t) => t@,
            TypeDescriptor::Array(a) => a@,
        }
    }
}

impl Clone for TypeDescriptor {
    fn clone(&self) -> (res: Self)
        ensures
            res == *self,
    {
        match self {
            TypeDescriptor::Primitive(p) => TypeDescriptor::Primitive(*p),
            TypeDescriptor::Reference(t) => TypeDescriptor::Reference(t.clone()),
            TypeDescriptor::Array(a) => TypeDescriptor::Array(a.clone()),
        }
    }
}

impl PartialEq for TypeDescriptor {
    fn eq(&self, other: &Self) -> (r: bool) {
        str_eq(self.descriptor_ref(), other.descriptor_ref())
    }
}

impl vstd::std_specs::cmp::PartialEqSpecImpl for TypeDescriptor {
    open spec fn obeys_eq_spec() -> bool {
        true
    }

    open spec fn eq_spec(&self, other: &Self) -> bool {
        self@ == other@
    }
}

impl TypeDescriptor {
    /// The value is well formed for its variant.
    pub open spec fn wf(&self) -> bool {
        match self {
            TypeDescriptor::Primitive(p) => true,
            TypeDescriptor::Reference(t) => t.wf(),
            TypeDescriptor::Array(a) => a.wf(),
        }
    }

    /// The canonical descriptor, borrowed.
    pub fn descriptor_ref(&self) -> (r: &str)
        ensures
            r@ == self@,
    {
        match self {
            TypeDescriptor::Primitive(p) => p.descriptor_str(),
            TypeDescriptor::Reference(t) => t.descriptor_as_str(),
            TypeDescriptor::Array(a) => a.descriptor_as_str(),
        }
    }
}

/// The dotted display name of a type-descriptor value.
pub open spec fn td_name_v(t: TypeDescriptor) -> Seq<char> {
    match t {
        TypeDescriptor::Primitive(p) => prim_name(p),
        TypeDescriptor::Reference(r) => slashes_to_dots(ref_internal_name(r@)),
        TypeDescriptor::Array(a) => a.elem_name_v() + box_pairs(a.dims()),
    }
}

/// The internal name of a type-descriptor value.
pub open spec fn td_internal_v(t: TypeDescriptor) -> Seq<char> {
    match t {
        TypeDescriptor::Primitive(p) => prim_name(p),
        TypeDescriptor::Reference(r) => ref_internal_name(r@),
        TypeDescriptor::Array(a) => a.elem_internal_v() + box_pairs(a.dims()),
    }
}

/// A well-formed value's descriptor is valid descriptor text.
pub proof fn lemma_wf_valid(t: &TypeDescriptor)
    requires
        t.wf(),
    ensures
        valid_type_desc(t@),
{
    match t {
        TypeDescriptor::Primitive(p) => {
            lemma_prim_desc(*p);
        },
        TypeDescriptor::Reference(r) => {},
        TypeDescriptor::Array(a) => {
            lemma_array_wf_valid(a);
        },
    }
}

impl SimpleParse for TypeDescriptor {
    fn parse(parser: &mut SimpleParser) -> (r: Result<Self, SimpleParseError>)
        ensures
            r is Ok <==> take_type_end(old(parser).text_v(), old(parser).pos_v()) is Some,
            r matches Ok(t) ==> {
                &&& final(parser).pos_v() == take_type_end(
                    old(parser).text_v(),
                    old(parser).pos_v(),
                )->Some_0
                &&& t.wf()
                &&& t@ == old(parser).text_v().subrange(old(parser).pos_v(), final(parser).pos_v())
            },
            r matches Err(e) ==> ({
                let s = old(parser).text_v();
                let from = old(parser).pos_v();
                let d = find_nonbracket(s, from);
                if from >= s.len() {
                    e.index == from && e.reason is None
                } else if s[from] == 'L' {
                    e.index == find_ref_end(s, from + 1) && e.reason is Some
                } else if s[from] == '[' {
                    if d >= s.len() {
                        e.index == d && e.reason is None
                    } else if s[d] == 'L' {
                        e.index == find_ref_end(s, d + 1) && e.reason is Some
                    } else {
                        e.index == d && e.reason is None
                    }
                } else {
                    e.index == from && e.reason is None
                }
            }),
    {
        let ghost s = parser.text_v();
        let ghost from = parser.pos_v();
        proof {
            parser.lemma_pos_bounds();
        }
        let c = match parser.peek() {
            Ok(c) => c,
            Err(e) => {
                return Err(e);
            },
        };
        if c == 'L' {
            proof {
                assert(take_type_end(s, from) == take_ref_end(s, from));
            }
            match ReferenceType::parse(parser) {
                Ok(t) => Ok(TypeDescriptor::Reference(t)),
                Err(e) => Err(e),
            }
        } else if c == '[' {
            proof {
                assert(!prim_code('['));
                assert(take_type_end(s, from) == take_array_end(s, from));
            }
            match ArrayType::parse(parser) {
                Ok(t) => Ok(TypeDescriptor::Array(t)),
                Err(e) => Err(e),
            }
        } else {
            proof {
                assert(prim_code(s[from]) ==> take_type_end(s, from) == Some(from + 1));
                assert(!prim_code(s[from]) ==> take_type_end(s, from) is None);
            }
            match PrimitiveType::parse(parser) {
                Ok(p) => Ok(TypeDescriptor::Primitive(p)),
                Err(e) => Err(e),
            }
        }
    }
}

/// The shared face of the type model: canonical descriptor, display
/// name, internal name, and conversion into the tagged union.
pub trait JavaType: Sized {
    /// The canonical descriptor.
    spec fn desc_v(&self) -> Seq<char>;

    /// The dotted display name.
    spec fn name_v(&self) -> Seq<char>;

    /// The slash-separated internal name.
    spec fn internal_name_v(&self) -> Seq<char>;

    /// The value is well formed.
    spec fn type_wf(&self) -> bool;

    /// Parses a whole descriptor string into a value of this type.
    fn parse_descriptor(s: &str) -> (r: Option<Self>)
        ensures
            r matches Some(t) ==> t.type_wf() && t.desc_v() == s@,
    ;

    fn descriptor(&self) -> (r: String)
        requires
            self.type_wf(),
        ensures
            r@ == self.desc_v(),
    ;

    fn name(&self) -> (r: String)
        requires
            self.type_wf(),
        ensures
            r@ == self.name_v(),
    ;

    fn internal_name(&self) -> (r: String)
        requires
            self.type_wf(),
        ensures
            r@ == self.internal_name_v(),
    ;

    fn into_type_descriptor(self) -> (r: TypeDescriptor)
        requires
            self.type_wf(),
        ensures
            r.wf(),
            r@ == self.desc_v(),
            td_name_v(r) == self.name_v(),
            td_internal_v(r) == self.internal_name_v(),
    ;
}

impl JavaType for PrimitiveType {
    open spec fn desc_v(&self) -> Seq<char> {
        prim_desc(*self)
    }

    open spec fn name_v(&self) -> Seq<char> {
        prim_name(*self)
    }

    open spec fn internal_name_v(&self) -> Seq<char> {
        prim_name(*self)
    }

    open spec fn type_wf(&self) -> bool {
        true
    }

    fn parse_descriptor(s: &str) -> (r: Option<Self>)
        ensures
            r is Some <==> valid_prim_desc(s@),
            r matches Some(t) ==> t.desc_v() == s@,
    {
        let mut parser = SimpleParser::new(s);
        let parsed = match PrimitiveType::parse(&mut parser) {
            Ok(p) => p,
            Err(_) => {
                return None;
            },
        };
        match parser.ensure_finished() {
            Ok(_) => {
                proof {
                    assert(s@ =~= prim_desc(parsed));
                }
                Some(parsed)
            },
            Err(_) => None,
        }
    }

    fn descriptor(&self) -> (r: String) {
        String::from_str(self.descriptor_str())
    }

    fn name(&self) -> (r: String) {
        String::from_str(prim_name_str(*self))
    }

    fn internal_name(&self) -> (r: String) {
        String::from_str(prim_name_str(*self))
    }

    fn into_type_descriptor(self) -> (r: TypeDescriptor) {
        TypeDescriptor::Primitive(self)
    }
}

impl ReferenceType {
    /// The descriptor, borrowed.
    pub fn descriptor_as_str(&self) -> (r: &str)
        ensures
            r@ == self@,
    {
        self.descriptor.as_str()
    }
}

impl ArrayType {
    /// The descriptor, borrowed.
    pub fn descriptor_as_str(&self) -> (r: &str)
        ensures
            r@ == self@,
    {
        self.descriptor.as_str()
    }

    /// The number of dimensions.
    pub fn dimensions_count(&self) -> (r: usize)
        ensures
            r == self.dims(),
    {
        self.dimensions
    }

    /// The element, when it is a reference type.
    pub fn element_ref(&self) -> (r: Option<&ReferenceType>)
        requires
            self.wf(),
        ensures
            r matches Some(t) ==> t@ == self.elem_v() && t.wf() && valid_ref_desc(self.elem_v()),
            r is None ==> !valid_ref_desc(self.elem_v()),
    {
        match &self.element_type {
            ElementType::Reference(t) => Some(t),
            ElementType::Primitive(p) => {
                proof {
                    lemma_prim_desc(*p);
                }
                None
            },
        }
    }
}

impl JavaType for ReferenceType {
    open spec fn desc_v(&self) -> Seq<char> {
        self@
    }

    open spec fn name_v(&self) -> Seq<char> {
        slashes_to_dots(ref_internal_name(self@))
    }

    open spec fn internal_name_v(&self) -> Seq<char> {
        ref_internal_name(self@)
    }

    open spec fn type_wf(&self) -> bool {
        self.wf()
    }

    fn parse_descriptor(s: &str) -> (r: Option<Self>)
        ensures
            r is Some <==> valid_ref_desc(s@),
            r matches Some(t) ==> t.wf() && t@ == s@,
    {
        let mut parser = SimpleParser::new(s);
        let parsed = match ReferenceType::parse(&mut parser) {
            Ok(t) => t,
            Err(_) => {
                proof {
                    if valid_ref_desc(s@) {
                        lemma_valid_ref_take(s@);
                    }
                }
                return None;
            },
        };
        match parser.ensure_finished() {
            Ok(_) => {
                proof {
                    assert(s@.subrange(0, s@.len() as int) =~= s@);
                    assert(take_type_end(s@, 0) == take_ref_end(s@, 0));
                    lemma_take_type_valid(s@, 0);
                }
                Some(parsed)
            },
            Err(_) => {
                proof {
                    if valid_ref_desc(s@) {
                        lemma_valid_ref_take(s@);
                    }
                }
                None
            },
        }
    }

    fn descriptor(&self) -> (r: String) {
        self.descriptor.clone()
    }

    fn name(&self) -> (r: String) {
        ReferenceType::name(self)
    }

    fn internal_name(&self) -> (r: String) {
        ReferenceType::internal_name(self)
    }

    fn into_type_descriptor(self) -> (r: TypeDescriptor) {
        TypeDescriptor::Reference(self)
    }
}

/// A whole valid reference descriptor is taken completely.
pub proof fn lemma_valid_ref_take(s: Seq<char>)
    requires
        valid_ref_desc(s),
    ensures
        take_ref_end(s, 0) == Some(s.len() as int),
        s[0] == 'L',
{
    lemma_find_ref_end_unique(s, 1, s.len() - 1);
}

/// A whole valid array descriptor is taken completely.
pub proof fn lemma_valid_array_take(s: Seq<char>)
    requires
        valid_array_desc(s),
    ensures
        take_array_end(s, 0) == Some(s.len() as int),
        s[0] == '[',
{
    crate::model::lemma_valid_take_type(s);
    assert(!valid_prim_desc(s)) by {
        crate::model::lemma_leading_brackets(s);
        let d = crate::model::leading_brackets(s);
        assert(s.skip(d).len() >= 1);
        assert(s[0] == '[');
    }
    assert(!valid_ref_desc(s)) by {
        crate::model::lemma_leading_brackets(s);
        assert(s[0] == '[');
    }
}

impl JavaType for ArrayType {
    open spec fn desc_v(&self) -> Seq<char> {
        self@
    }

    open spec fn name_v(&self) -> Seq<char> {
        self.elem_name_v() + box_pairs(self.dims())
    }

    open spec fn internal_name_v(&self) -> Seq<char> {
        self.elem_internal_v() + box_pairs(self.dims())
    }

    open spec fn type_wf(&self) -> bool {
        self.wf()
    }

    fn parse_descriptor(s: &str) -> (r: Option<Self>)
        ensures
            r is Some <==> valid_array_desc(s@),
            r matches Some(t) ==> t.wf() && t@ == s@,
    {
        let mut parser = SimpleParser::new(s);
        let parsed = match ArrayType::parse(&mut parser) {
            Ok(t) => t,
            Err(_) => {
                proof {
                    if valid_array_desc(s@) {
                        lemma_valid_array_take(s@);
                    }
                }
                return None;
            },
        };
        match parser.ensure_finished() {
            Ok(_) => {
                proof {
                    assert(s@.subrange(0, s@.len() as int) =~= s@);
                    assert(take_type_end(s@, 0) == take_array_end(s@, 0));
                    lemma_take_type_valid(s@, 0);
                }
                Some(parsed)
            },
            Err(_) => {
                proof {
                    if valid_array_desc(s@) {
                        lemma_valid_array_take(s@);
                    }
                }
                None
            },
        }
    }

    fn descriptor(&self) -> (r: String) {
        self.descriptor.clone()
    }

    fn name(&self) -> (r: String) {
        let mut buffer = self.element_type.name();
        let mut i: usize = 0;
        proof {
            reveal_strlit("[]");
        }
        while i < self.dimensions
            invariant
                self.wf(),
                0 <= i <= self.dimensions,
                buffer@ == self.elem_name_v() + box_pairs(i as int),
                "[]"@ =~= seq!['[', ']'],
            decreases self.dimensions - i,
        {
            buffer.append("[]");
            proof {
                assert(buffer@ =~= self.elem_name_v() + box_pairs(i + 1));
            }
            i = i + 1;
        }
        buffer
    }

    fn internal_name(&self) -> (r: String) {
        let mut buffer = self.element_type.internal_name();
        let mut i: usize = 0;
        proof {
            reveal_strlit("[]");
        }
        while i < self.dimensions
            invariant
                self.wf(),
                0 <= i <= self.dimensions,
                buffer@ == self.elem_internal_v() + box_pairs(i as int),
                "[]"@ =~= seq!['[', ']'],
            decreases self.dimensions - i,
        {
            buffer.append("[]");
            proof {
                assert(buffer@ =~= self.elem_internal_v() + box_pairs(i + 1));
            }
            i = i + 1;
        }
        buffer
    }

    fn into_type_descriptor(self) -> (r: TypeDescriptor) {
        TypeDescriptor::Array(self)
    }
}

impl JavaType for TypeDescriptor {
    open spec fn desc_v(&self) -> Seq<char> {
        self@
    }

    open spec fn name_v(&self) -> Seq<char> {
        td_name_v(*self)
    }

    open spec fn internal_name_v(&self) -> Seq<char> {
        td_internal_v(*self)
    }

    open spec fn type_wf(&self) -> bool {
        self.wf()
    }

    fn parse_descriptor(s: &str) -> (r: Option<Self>)
        ensures
            r is Some <==> valid_type_desc(s@),
            r matches Some(t) ==> t.wf() && t@ == s@,
    {
        let mut parser = SimpleParser::new(s);
        let parsed = match TypeDescriptor::parse(&mut parser) {
            Ok(t) => t,
            Err(_) => {
                proof {
                    if valid_type_desc(s@) {
                        crate::model::lemma_valid_take_type(s@);
                    }
                }
                return None;
            },
        };
        match parser.ensure_finished() {
            Ok(_) => {
                proof {
                    assert(s@.subrange(0, s@.len() as int) =~= s@);
                    lemma_take_type_valid(s@, 0);
                }
                Some(parsed)
            },
            Err(_) => {
                proof {
                    if valid_type_desc(s@) {
                        crate::model::lemma_valid_take_type(s@);
                    }
                }
                None
            },
        }
    }

    fn descriptor(&self) -> (r: String) {
        String::from_str(self.descriptor_ref())
    }

    fn name(&self) -> (r: String) {
        match self {
            TypeDescriptor::Primitive(p) => String::from_str(prim_name_str(*p)),
            TypeDescriptor::Reference(t) => JavaType::name(t),
            TypeDescriptor::Array(a) => JavaType::name(a),
        }
    }

    fn internal_name(&self) -> (r: String) {
        match self {
            TypeDescriptor::Primitive(p) => String::from_str(prim_name_str(*p)),
            TypeDescriptor::Reference(t) => JavaType::internal_name(t),
            TypeDescriptor::Array(a) => JavaType::internal_name(a),
        }
    }

    fn into_type_descriptor(self) -> (r: TypeDescriptor) {
        self
    }
}

} // verus!
