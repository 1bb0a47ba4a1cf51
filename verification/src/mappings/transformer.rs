//! Remapping nested class references through a class-renaming table.

use vstd::prelude::*;
use vstd::string::StringExecFns;

use crate::descriptor::FieldData;
use crate::descriptor::MethodData;
use crate::descriptor::MethodSignature;
use crate::model::classes_v_wf;
use crate::model::has_key;
use crate::model::lemma_key_index;
use crate::model::lemma_sig_roundtrip;
use crate::model::lemma_wf_lookup;
use crate::model::lookup;
use crate::model::remap_class_v;
use crate::model::remap_field_key_v;
use crate::model::remap_method_key_v;
use crate::model::remap_params_v;
use crate::model::remap_sig_desc_v;
use crate::model::remap_type_v;
use crate::model::ClassesV;
use crate::tables::Table;
use crate::tables::TableItem;
use crate::types::lemma_array_wf_valid;
use crate::types::lemma_prim_desc;
use crate::types::ArrayType;
use crate::types::JavaType;
use crate::types::ReferenceType;
use crate::types::TypeDescriptor;

verus! {

/// A class-renaming capability: a lookup in some class table.
pub trait TypeTransformer {
    /// The class table this transformer applies.
    spec fn class_table(&self) -> ClassesV;

    /// The renamed class for an original, or nothing when the table has
    /// no entry for it.
    fn maybe_remap_class(&self, original: &ReferenceType) -> (r: Option<ReferenceType>)
        requires
            original.wf(),
            classes_v_wf(self.class_table()),
        ensures
            r is Some <==> has_key(self.class_table(), original@),
            r matches Some(t) ==> Some(t@) == lookup(self.class_table(), original@) && t.wf(),
    ;
}

impl TypeTransformer for Table<ReferenceType, ReferenceType> {
    open spec fn class_table(&self) -> ClassesV {
        self.map_v()
    }

    fn maybe_remap_class(&self, original: &ReferenceType) -> (r: Option<ReferenceType>) {
        match self.get(original) {
            Some(v) => {
                proof {
                    lemma_wf_lookup(self.map_v(), original@);
                }
                Some(v.clone())
            },
            None => None,
        }
    }
}

/// A value whose nested class references can be rewritten through a
/// class table.
pub trait MapClass: View + Sized {
    /// The value is well formed.
    spec fn mc_wf(&self) -> bool;

    /// The view after remapping nested class references.
    spec fn remapped_v(&self, c: ClassesV) -> Self::V;

    /// The remapped value, or nothing when nothing would change.
    fn maybe_transform_class<T: TypeTransformer>(&self, transformer: &T) -> (r: Option<Self>)
        requires
            self.mc_wf(),
            classes_v_wf(transformer.class_table()),
        ensures
            r matches Some(x) ==> x@ == self.remapped_v(transformer.class_table()) && x.mc_wf(),
            r is None ==> self@ == self.remapped_v(transformer.class_table()),
    ;

    /// The remapped value; the value itself when nothing changes.
    fn transform_class<T: TypeTransformer>(&self, transformer: &T) -> (r: Self)
        requires
            self.mc_wf(),
            classes_v_wf(transformer.class_table()),
        ensures
            r@ == self.remapped_v(transformer.class_table()),
            r.mc_wf(),
    ;
}

impl MapClass for ReferenceType {
    open spec fn mc_wf(&self) -> bool {
        self.wf()
    }

    open spec fn remapped_v(&self, c: ClassesV) -> Seq<char> {
        remap_class_v(c, self@)
    }

    fn maybe_transform_class<T: TypeTransformer>(&self, transformer: &T) -> (r: Option<Self>) {
        transformer.maybe_remap_class(self)
    }

    fn transform_class<T: TypeTransformer>(&self, transformer: &T) -> (r: Self) {
        match transformer.maybe_remap_class(self) {
            Some(t) => t,
            None => self.clone(),
        }
    }
}

impl MapClass for TypeDescriptor {
    open spec fn mc_wf(&self) -> bool {
        self.wf()
    }

    open spec fn remapped_v(&self, c: ClassesV) -> Seq<char> {
        remap_type_v(c, self@)
    }

    fn maybe_transform_class<T: TypeTransformer>(&self, transformer: &T) -> (r: Option<Self>) {
        match self {
            TypeDescriptor::Primitive(p) => {
                proof {
                    lemma_prim_desc(*p);
                }
                None
            },
            TypeDescriptor::Reference(t) => {
                match transformer.maybe_remap_class(t) {
                    Some(m) => Some(TypeDescriptor::Reference(m)),
                    None => None,
                }
            },
            TypeDescriptor::Array(a) => {
                match a.maybe_map_element(transformer) {
                    Some(m) => Some(TypeDescriptor::Array(m)),
                    None => None,
                }
            },
        }
    }

    fn transform_class<T: TypeTransformer>(&self, transformer: &T) -> (r: Self) {
        match self.maybe_transform_class(transformer) {
            Some(t) => t,
            None => self.clone(),
        }
    }
}

impl ArrayType {
    /// The array with its element remapped, or nothing when the element
    /// is not a renamed reference.
    pub fn maybe_map_element<T: TypeTransformer>(&self, transformer: &T) -> (r: Option<ArrayType>)
        requires
            self.wf(),
            classes_v_wf(transformer.class_table()),
        ensures
            r matches Some(x) ==> x@ == remap_type_v(transformer.class_table(), self@) && x.wf(),
            r is None ==> self@ == remap_type_v(transformer.class_table(), self@),
    {
        proof {
            lemma_array_wf_valid(self);
            crate::model::lemma_leading_brackets(self@);
            crate::types::lemma_brackets(self.dims());
            assert(self@.skip(self.dims()) =~= self.elem_v());
            assert(crate::model::leading_brackets(self@) == self.dims()) by {
                crate::model::lemma_leading_brackets_unique(self@, self.dims());
            }
        }
        match self.element_ref() {
            Some(t) => {
                match transformer.maybe_remap_class(t) {
                    Some(m) => {
                        let dims = self.dimensions_count();
                        Some(ArrayType::new(dims, m))
                    },
                    None => {
                        proof {
                            assert(self@ =~= crate::model::brackets(self.dims()) + remap_class_v(
                                transformer.class_table(),
                                self.elem_v(),
                            ));
                        }
                        None
                    },
                }
            },
            None => None,
        }
    }
}

impl MapClass for MethodSignature {
    open spec fn mc_wf(&self) -> bool {
        self.wf()
    }

    open spec fn remapped_v(&self, c: ClassesV) -> Seq<char> {
        remap_sig_desc_v(c, self@)
    }

    fn maybe_transform_class<T: TypeTransformer>(&self, transformer: &T) -> (r: Option<Self>) {
        Some(self.raw_transform_class(transformer))
    }

    fn transform_class<T: TypeTransformer>(&self, transformer: &T) -> (r: Self) {
        self.raw_transform_class(transformer)
    }
}

impl MethodSignature {
    /// The signature with every parameter and the return type remapped,
    /// rebuilt and re-rendered.
    pub fn raw_transform_class<T: TypeTransformer>(&self, transformer: &T) -> (r: MethodSignature)
        requires
            self.wf(),
            classes_v_wf(transformer.class_table()),
        ensures
            r.wf(),
            r@ == remap_sig_desc_v(transformer.class_table(), self@),
            r.params_v() == remap_params_v(transformer.class_table(), self.params_v()),
            r.ret_v() == remap_type_v(transformer.class_table(), self.ret_v()),
    {
        let ghost c = transformer.class_table();
        let new_ret = self.return_type().transform_class(transformer);
        let old_params = self.parameter_types();
        let mut new_params: Vec<TypeDescriptor> = Vec::new();
        let n = old_params.len();
        let mut i: usize = 0;
        while i < n
            invariant
                self.wf(),
                classes_v_wf(c),
                c == transformer.class_table(),
                n == old_params@.len(),
                old_params@.map_values(|t: TypeDescriptor| t@) == self.params_v(),
                forall|j: int| 0 <= j < n ==> (#[trigger] old_params@[j]).wf(),
                0 <= i <= n,
                new_params@.len() == i,
                forall|j: int|
                    0 <= j < i ==> ((#[trigger] new_params@[j])@ == remap_type_v(
                        c,
                        old_params@[j]@,
                    ) && new_params@[j].wf()),
            decreases n - i,
        {
            let p = old_params[i].transform_class(transformer);
            new_params.push(p);
            i = i + 1;
        }
        let r = MethodSignature::new(new_ret, new_params);
        proof {
            assert(r.params_v() =~= remap_params_v(c, self.params_v()));
            self.lemma_sig_parts_valid();
            lemma_sig_roundtrip(self.params_v(), self.ret_v());
            assert(remap_sig_desc_v(c, self@) == crate::model::sig_render(
                remap_params_v(c, self.params_v()),
                remap_type_v(c, self.ret_v()),
            ));
        }
        r
    }
}

/// A renaming capability handed to `transform`: it may rename a class,
/// a field or a method, or decline and let nested-type propagation
/// derive the new value.
pub trait MappingsTransformer {
    /// The transformer's own well-formedness.
    spec fn mt_wf(&self) -> bool;

    /// The class renaming it applies, if any.
    spec fn spec_class(&self, c: Seq<char>) -> Option<Seq<char>>;

    /// The field renaming it applies, if any.
    spec fn spec_field(&self, k: crate::model::FieldKeyV) -> Option<Seq<char>>;

    /// The method renaming it applies, if any.
    spec fn spec_method(&self, k: crate::model::MethodKeyV) -> Option<Seq<char>>;

    fn transform_class(&self, original: &ReferenceType) -> (r: Option<ReferenceType>)
        requires
            self.mt_wf(),
            original.wf(),
        ensures
            (match r {
                Some(t) => Some(t@) == self.spec_class(original@) && t.wf(),
                None => self.spec_class(original@) is None,
            }),
    ;

    fn rename_field(&self, original: &FieldData) -> (r: Option<String>)
        requires
            self.mt_wf(),
            original.wf(),
        ensures
            (match r {
                Some(s) => Some(s@) == self.spec_field(original@),
                None => self.spec_field(original@) is None,
            }),
    ;

    fn rename_method(&self, original: &MethodData) -> (r: Option<String>)
        requires
            self.mt_wf(),
            original.wf(),
        ensures
            (match r {
                Some(s) => Some(s@) == self.spec_method(original@),
                None => self.spec_method(original@) is None,
            }),
    ;
}

/// The class table after a transformer ran over every renamed class.
pub open spec fn transformed_classes<T: MappingsTransformer>(t: &T, cs: ClassesV) -> ClassesV {
    cs.map_values(
        |e: (Seq<char>, Seq<char>)|
            (
                e.0,
                match t.spec_class(e.1) {
                    Some(x) => x,
                    None => e.1,
                },
            ),
    )
}

/// The field names after a transformer ran over every renamed field.
pub open spec fn transformed_field_names<T: MappingsTransformer>(
    t: &T,
    fs: crate::model::FieldsV,
) -> crate::model::FieldNamesV {
    fs.map_values(
        |e: (crate::model::FieldKeyV, crate::model::FieldKeyV)|
            (
                e.0,
                match t.spec_field(e.1) {
                    Some(n) => n,
                    None => e.1.1,
                },
            ),
    )
}

/// The method names after a transformer ran over every renamed method.
pub open spec fn transformed_method_names<T: MappingsTransformer>(
    t: &T,
    ms: crate::model::MethodsV,
) -> crate::model::MethodNamesV {
    ms.map_values(
        |e: (crate::model::MethodKeyV, crate::model::MethodKeyV)|
            (
                e.0,
                match t.spec_method(e.1) {
                    Some(n) => n,
                    None => e.1.1,
                },
            ),
    )
}

/// Rebuilds a frozen snapshot with the same original-key set, every
/// renamed side recomputed by the transformer and then re-resolved
/// against the new class table.
pub fn transform<T: MappingsTransformer>(
    mappings: &crate::mappings::frozen::FrozenMappings,
    transformer: &T,
) -> (r: crate::mappings::frozen::FrozenMappings)
    requires
        mappings.wf(),
        transformer.mt_wf(),
    ensures
        r.wf(),
        r.classes_v() == transformed_classes(transformer, mappings.classes_v()),
        r.fields_v() == crate::model::resolve_field_entries(
            r.classes_v(),
            transformed_field_names(transformer, mappings.fields_v()),
        ),
        r.methods_v() == crate::model::resolve_method_entries(
            r.classes_v(),
            transformed_method_names(transformer, mappings.methods_v()),
        ),
        r.inv_classes_v() == crate::model::invert_tbl(r.classes_v()),
        r.inv_fields_v() == crate::model::invert_tbl(r.fields_v()),
        r.inv_methods_v() == crate::model::invert_tbl(r.methods_v()),
{
    proof {
        mappings.lemma_wf();
    }
    let ghost tc = transformed_classes(transformer, mappings.classes_v());
    let ghost tf = transformed_field_names(transformer, mappings.fields_v());
    let ghost tm = transformed_method_names(transformer, mappings.methods_v());
    let mut classes: Vec<(ReferenceType, ReferenceType)> = Vec::new();
    let n = mappings.class_count();
    let mut i: usize = 0;
    while i < n
        invariant
            mappings.wf(),
            transformer.mt_wf(),
            tc == transformed_classes(transformer, mappings.classes_v()),
            n == mappings.classes_v().len(),
            0 <= i <= n,
            classes@.len() == i,
            forall|j: int|
                0 <= j < i ==> ((#[trigger] classes@[j]).0@ == tc[j].0 && classes@[j].1@ == tc[j].1
                    && classes@[j].0.wf() && classes@[j].1.wf()),
        decreases n - i,
    {
        let e = mappings.class_at(i);
        let renamed = match transformer.transform_class(e.1) {
            Some(t) => t,
            None => e.1.clone(),
        };
        classes.push((e.0.clone(), renamed));
        i = i + 1;
    }
    let mut fields: Vec<(FieldData, String)> = Vec::new();
    let n = mappings.field_count();
    let mut i: usize = 0;
    while i < n
        invariant
            mappings.wf(),
            transformer.mt_wf(),
            tf == transformed_field_names(transformer, mappings.fields_v()),
            n == mappings.fields_v().len(),
            0 <= i <= n,
            fields@.len() == i,
            forall|j: int|
                0 <= j < i ==> ((#[trigger] fields@[j]).0@ == tf[j].0 && fields@[j].1@ == tf[j].1
                    && fields@[j].0.wf()),
        decreases n - i,
    {
        let e = mappings.field_at(i);
        let renamed = match transformer.rename_field(e.1) {
            Some(s) => s,
            None => String::from_str(e.1.name()),
        };
        fields.push((e.0.clone(), renamed));
        i = i + 1;
    }
    let mut methods: Vec<(MethodData, String)> = Vec::new();
    let n = mappings.method_count();
    let mut i: usize = 0;
    while i < n
        invariant
            mappings.wf(),
            transformer.mt_wf(),
            tm == transformed_method_names(transformer, mappings.methods_v()),
            n == mappings.methods_v().len(),
            0 <= i <= n,
            methods@.len() == i,
            forall|j: int|
                0 <= j < i ==> ((#[trigger] methods@[j]).0@ == tm[j].0 && methods@[j].1@ == tm[j].1
                    && methods@[j].0.wf()),
        decreases n - i,
    {
        let e = mappings.method_at(i);
        let renamed = match transformer.rename_method(e.1) {
            Some(s) => s,
            None => String::from_str(e.1.name()),
        };
        methods.push((e.0.clone(), renamed));
        i = i + 1;
    }
    let r = crate::mappings::frozen::FrozenMappings::new(classes, fields, methods);
    proof {
        let cvs = tc;
        assert(classes@.map_values(|e: (ReferenceType, ReferenceType)| (e.0@, e.1@)) =~= tc);
        assert(fields@.map_values(|e: (FieldData, String)| (e.0@, e.1@)) =~= tf);
        assert(methods@.map_values(|e: (MethodData, String)| (e.0@, e.1@)) =~= tm);
        assert(crate::model::distinct_keys(tc)) by {
            assert forall|a: int, b: int| 0 <= a < b < tc.len() implies tc[a].0 != tc[b].0 by {
                assert(tc[a].0 == mappings.classes_v()[a].0);
                assert(tc[b].0 == mappings.classes_v()[b].0);
            }
        }
        assert(crate::model::distinct_keys(tf)) by {
            assert forall|a: int, b: int| 0 <= a < b < tf.len() implies tf[a].0 != tf[b].0 by {
                assert(tf[a].0 == mappings.fields_v()[a].0);
                assert(tf[b].0 == mappings.fields_v()[b].0);
            }
        }
        assert(crate::model::distinct_keys(tm)) by {
            assert forall|a: int, b: int| 0 <= a < b < tm.len() implies tm[a].0 != tm[b].0 by {
                assert(tm[a].0 == mappings.methods_v()[a].0);
                assert(tm[b].0 == mappings.methods_v()[b].0);
            }
        }
        crate::model::lemma_insert_all_fresh(Seq::<(Seq<char>, Seq<char>)>::empty(), tc);
        crate::model::lemma_insert_all_fresh(
            Seq::<((Seq<char>, Seq<char>), Seq<char>)>::empty(),
            tf,
        );
        crate::model::lemma_insert_all_fresh(
            Seq::<((Seq<char>, Seq<char>, Seq<char>), Seq<char>)>::empty(),
            tm,
        );
        assert(Seq::<(Seq<char>, Seq<char>)>::empty() + tc =~= tc);
        assert(Seq::<((Seq<char>, Seq<char>), Seq<char>)>::empty() + tf =~= tf);
        assert(Seq::<((Seq<char>, Seq<char>, Seq<char>), Seq<char>)>::empty() + tm =~= tm);
    }
    r
}

/// The internal name produced by moving a simple name under a package:
/// the simple name alone when the package is empty.
pub open spec fn repackaged_internal(p: Seq<char>, simple: Seq<char>) -> Seq<char> {
    if p.len() == 0 {
        simple
    } else {
        p + seq!['/'] + simple
    }
}

/// The repackaged class descriptor, if the package table renames the
/// class's package.
pub open spec fn repackage_v(packages: Seq<(Seq<char>, Seq<char>)>, c: Seq<char>) -> Option<
    Seq<char>,
> {
    let internal = crate::model::ref_internal_name(c);
    let ls = crate::types::last_slash(internal);
    let pkg = if ls >= 0 {
        internal.subrange(0, ls)
    } else {
        Seq::<char>::empty()
    };
    let simple = internal.subrange(ls + 1, internal.len() as int);
    match crate::model::lookup(packages, pkg) {
        Some(p) => Some(crate::model::ref_desc_of(repackaged_internal(p, simple))),
        None => None,
    }
}

/// Every renamed package in the table is free of `.` and `;`.
pub open spec fn package_table_clean(t: &Table<String, String>) -> bool {
    forall|i: int, j: int|
        0 <= i < t.map_v().len() && 0 <= j < (#[trigger] t.map_v()[i]).1.len() ==> (
        #[trigger] t.map_v()[i].1[j]) != '.' && t.map_v()[i].1[j] != ';'
}

impl MappingsTransformer for Table<String, String> {
    open spec fn mt_wf(&self) -> bool {
        package_table_clean(self)
    }

    open spec fn spec_class(&self, c: Seq<char>) -> Option<Seq<char>> {
        repackage_v(self.map_v(), c)
    }

    open spec fn spec_field(&self, k: crate::model::FieldKeyV) -> Option<Seq<char>> {
        None
    }

    open spec fn spec_method(&self, k: crate::model::MethodKeyV) -> Option<Seq<char>> {
        None
    }

    fn transform_class(&self, original: &ReferenceType) -> (r: Option<ReferenceType>) {
        let ghost internal = crate::model::ref_internal_name(original@);
        let ghost ls = crate::types::last_slash(internal);
        let (package, simple) = original.split_name();
        match self.get(&package) {
            Some(renamed_pkg) => {
                let ghost pv = renamed_pkg@;
                let ghost m = self.map_v();
                proof {
                    lemma_key_index(m, package@);
                    let ki = crate::model::key_index(m, package@);
                    assert(pv == m[ki].1);
                    assert forall|j: int| 0 <= j < pv.len() implies pv[j] != '.' && pv[j]
                        != ';' by {
                        assert(m[ki].1[j] != '.' && m[ki].1[j] != ';');
                    }
                    assert forall|j: int| 0 <= j < internal.len() implies internal[j] != '.'
                        && internal[j] != ';' by {
                        assert(internal[j] == original@[j + 1]);
                    }
                    crate::types::lemma_last_slash(internal);
                }
                let mut result = renamed_pkg.clone();
                if result.unicode_len() != 0 {
                    crate::utils::push_char(&mut result, '/');
                }
                result.append(simple.as_str());
                proof {
                    let rv = result@;
                    let off: int = if pv.len() == 0 {
                        0
                    } else {
                        pv.len() as int + 1
                    };
                    assert forall|j: int| 0 <= j < rv.len() implies rv[j] != '.' && rv[j]
                        != ';' by {
                        if j < pv.len() {
                            assert(rv[j] == pv[j]);
                        } else if pv.len() > 0 && j == pv.len() {
                            assert(rv[j] == '/');
                        } else {
                            assert(rv[j] == simple@[j - off]);
                            assert(simple@[j - off] == internal[ls + 1 + (j - off)]);
                        }
                    }
                    assert(rv =~= repackaged_internal(pv, simple@));
                }
                Some(ReferenceType::from_internal_name(result.as_str()))
            },
            None => None,
        }
    }

    fn rename_field(&self, original: &FieldData) -> (r: Option<String>) {
        None
    }

    fn rename_method(&self, original: &MethodData) -> (r: Option<String>) {
        None
    }
}

/// A class table after package renaming, stated over views alone.
pub open spec fn repackaged_classes(
    p: Seq<(Seq<char>, Seq<char>)>,
    cs: ClassesV,
) -> ClassesV {
    cs.map_values(
        |e: (Seq<char>, Seq<char>)|
            (
                e.0,
                match repackage_v(p, e.1) {
                    Some(x) => x,
                    None => e.1,
                },
            ),
    )
}

/// The renamed names of a resolved field table.
pub open spec fn names_of_fields(fs: crate::model::FieldsV) -> crate::model::FieldNamesV {
    fs.map_values(
        |e: (crate::model::FieldKeyV, crate::model::FieldKeyV)| (e.0, e.1.1),
    )
}

/// The renamed names of a resolved method table.
pub open spec fn names_of_methods(ms: crate::model::MethodsV) -> crate::model::MethodNamesV {
    ms.map_values(
        |e: (crate::model::MethodKeyV, crate::model::MethodKeyV)| (e.0, e.1.1),
    )
}

impl crate::mappings::frozen::FrozenMappings {
    /// A snapshot with the same originals whose renamed classes are
    /// moved to renamed packages; member names stay, their declaring
    /// types re-resolved.
    pub fn transform_packages(&self, packages: &Table<String, String>) -> (r:
        crate::mappings::frozen::FrozenMappings)
        requires
            self.wf(),
            package_table_clean(packages),
        ensures
            r.wf(),
            r.classes_v() == transformed_classes(packages, self.classes_v()),
            r.fields_v() == crate::model::resolve_field_entries(
                r.classes_v(),
                transformed_field_names(packages, self.fields_v()),
            ),
            r.methods_v() == crate::model::resolve_method_entries(
                r.classes_v(),
                transformed_method_names(packages, self.methods_v()),
            ),
            r.inv_classes_v() == crate::model::invert_tbl(r.classes_v()),
            r.inv_fields_v() == crate::model::invert_tbl(r.fields_v()),
            r.inv_methods_v() == crate::model::invert_tbl(r.methods_v()),
    {
        transform(self, packages)
    }
}

impl crate::mappings::simple::SimpleMappings {
    /// The frozen form of this builder with its packages renamed.
    pub fn transform_packages(&self, packages: &Table<String, String>) -> (r:
        crate::mappings::frozen::FrozenMappings)
        requires
            self.wf(),
            package_table_clean(packages),
        ensures
            r.wf(),
            r.classes_v() == transformed_classes(packages, self.classes_v()),
            r.fields_v() == crate::model::resolve_field_entries(
                r.classes_v(),
                transformed_field_names(
                    packages,
                    crate::model::resolve_field_entries(self.classes_v(), self.fields_v()),
                ),
            ),
            r.methods_v() == crate::model::resolve_method_entries(
                r.classes_v(),
                transformed_method_names(
                    packages,
                    crate::model::resolve_method_entries(self.classes_v(), self.methods_v()),
                ),
            ),
            r.inv_classes_v() == crate::model::invert_tbl(r.classes_v()),
            r.inv_fields_v() == crate::model::invert_tbl(r.fields_v()),
            r.inv_methods_v() == crate::model::invert_tbl(r.methods_v()),
    {
        let f = self.frozen();
        f.transform_packages(packages)
    }
}

impl MapClass for FieldData {
    open spec fn mc_wf(&self) -> bool {
        self.wf()
    }

    open spec fn remapped_v(&self, c: ClassesV) -> (Seq<char>, Seq<char>) {
        remap_field_key_v(c, self@)
    }

    fn maybe_transform_class<T: TypeTransformer>(&self, transformer: &T) -> (r: Option<Self>) {
        match transformer.maybe_remap_class(self.declaring_type()) {
            Some(t) => Some(FieldData::new(String::from_str(self.name()), t)),
            None => None,
        }
    }

    fn transform_class<T: TypeTransformer>(&self, transformer: &T) -> (r: Self) {
        match self.maybe_transform_class(transformer) {
            Some(x) => x,
            None => self.clone(),
        }
    }
}

impl MapClass for MethodData {
    open spec fn mc_wf(&self) -> bool {
        self.wf()
    }

    open spec fn remapped_v(&self, c: ClassesV) -> (Seq<char>, Seq<char>, Seq<char>) {
        remap_method_key_v(c, self@)
    }

    fn maybe_transform_class<T: TypeTransformer>(&self, transformer: &T) -> (r: Option<Self>) {
        let remapped_class = self.declaring_type().transform_class(transformer);
        let remapped_signature = self.signature().raw_transform_class(transformer);
        Some(MethodData::new(String::from_str(self.name()), remapped_class, remapped_signature))
    }

    fn transform_class<T: TypeTransformer>(&self, transformer: &T) -> (r: Self) {
        match self.maybe_transform_class(transformer) {
            Some(x) => x,
            None => self.clone(),
        }
    }
}

} // verus!
