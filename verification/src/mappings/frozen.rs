//! The immutable snapshot: three resolved tables and their inverses,
//! ready for lookup, inversion and composition.

use vstd::prelude::*;
use vstd::string::StringExecFns;

use crate::descriptor::FieldData;
use crate::descriptor::MethodData;
use crate::mappings::simple::SimpleMappings;
use crate::mappings::transformer::MapClass;
use crate::mappings::transformer::TypeTransformer;
use crate::model::classes_v_wf;
use crate::model::distinct_keys;
use crate::model::has_key;
use crate::model::invert_tbl;
use crate::model::lemma_key_index_absent;
use crate::model::lemma_wf_lookup;
use crate::model::lookup;
use crate::model::remap_class_v;
use crate::model::remap_field_total_v;
use crate::model::remap_method_total_v;
use crate::model::resolve_field_entries;
use crate::model::resolve_method_entries;
use crate::model::tbl_insert_all;
use crate::model::ClassesV;
use crate::model::FieldsV;
use crate::model::MethodsV;
use crate::tables::Table;
use crate::tables::TableItem;
use crate::types::ReferenceType;
use crate::types::TypeDescriptor;

verus! {

/// The frozen, invertible snapshot of a mapping.
#[derive(Debug)]
pub struct FrozenMappings {
    classes: Table<ReferenceType, ReferenceType>,
    fields: Table<FieldData, FieldData>,
    methods: Table<MethodData, MethodData>,
    inv_classes: Table<ReferenceType, ReferenceType>,
    inv_fields: Table<FieldData, FieldData>,
    inv_methods: Table<MethodData, MethodData>,
}

impl FrozenMappings {
    /// The class table, as views.
    pub closed spec fn classes_v(&self) -> ClassesV {
        self.classes.map_v()
    }

    /// The field table, as views.
    pub closed spec fn fields_v(&self) -> FieldsV {
        self.fields.map_v()
    }

    /// The method table, as views.
    pub closed spec fn methods_v(&self) -> MethodsV {
        self.methods.map_v()
    }

    /// The inverse class table, as views.
    pub closed spec fn inv_classes_v(&self) -> ClassesV {
        self.inv_classes.map_v()
    }

    /// The inverse field table, as views.
    pub closed spec fn inv_fields_v(&self) -> FieldsV {
        self.inv_fields.map_v()
    }

    /// The inverse method table, as views.
    pub closed spec fn inv_methods_v(&self) -> MethodsV {
        self.inv_methods.map_v()
    }

    /// All six tables hold well-formed entries under distinct keys, and
    /// one side is the entrywise inversion of the other.
    pub closed spec fn wf(&self) -> bool {
        &&& self.classes.distinct() && self.classes.all_wf()
        &&& self.fields.distinct() && self.fields.all_wf()
        &&& self.methods.distinct() && self.methods.all_wf()
        &&& self.inv_classes.distinct() && self.inv_classes.all_wf()
        &&& self.inv_fields.distinct() && self.inv_fields.all_wf()
        &&& self.inv_methods.distinct() && self.inv_methods.all_wf()
        &&& ((self.inv_classes_v() == invert_tbl(self.classes_v()) && self.inv_fields_v()
            == invert_tbl(self.fields_v()) && self.inv_methods_v() == invert_tbl(self.methods_v()))
            || (self.classes_v() == invert_tbl(self.inv_classes_v()) && self.fields_v()
            == invert_tbl(self.inv_fields_v()) && self.methods_v() == invert_tbl(
            self.inv_methods_v(),
        )))
    }

    /// What well-formedness gives the outside: distinct keys and
    /// well-formed class descriptors in every table view.
    pub proof fn lemma_wf(&self)
        requires
            self.wf(),
        ensures
            distinct_keys(self.classes_v()),
            distinct_keys(self.fields_v()),
            distinct_keys(self.methods_v()),
            classes_v_wf(self.classes_v()),
            classes_v_wf(self.inv_classes_v()),
    {
        assert forall|i: int|
            0 <= i < self.classes_v().len() implies crate::model::valid_ref_desc(
            (#[trigger] self.classes_v()[i]).0,
        ) && crate::model::valid_ref_desc(self.classes_v()[i].1) by {
            assert(self.classes_v()[i].0 == self.classes.entries_s()[i].0@);
            assert(self.classes_v()[i].1 == self.classes.entries_s()[i].1@);
        }
        assert forall|i: int|
            0 <= i < self.inv_classes_v().len() implies crate::model::valid_ref_desc(
            (#[trigger] self.inv_classes_v()[i]).0,
        ) && crate::model::valid_ref_desc(self.inv_classes_v()[i].1) by {
            assert(self.inv_classes_v()[i].0 == self.inv_classes.entries_s()[i].0@);
            assert(self.inv_classes_v()[i].1 == self.inv_classes.entries_s()[i].1@);
        }
    }

    /// Builds a snapshot from already resolved tables, inverting them
    /// eagerly; consistency of the renamed sides is the caller's care.
    fn new_raw(
        classes: Table<ReferenceType, ReferenceType>,
        fields: Table<FieldData, FieldData>,
        methods: Table<MethodData, MethodData>,
    ) -> (r: FrozenMappings)
        requires
            classes.distinct() && classes.all_wf(),
            fields.distinct() && fields.all_wf(),
            methods.distinct() && methods.all_wf(),
        ensures
            r.wf(),
            r.classes_v() == classes.map_v(),
            r.fields_v() == fields.map_v(),
            r.methods_v() == methods.map_v(),
            r.inv_classes_v() == invert_tbl(classes.map_v()),
            r.inv_fields_v() == invert_tbl(fields.map_v()),
            r.inv_methods_v() == invert_tbl(methods.map_v()),
    {
        let inv_classes = classes.inverted_tbl();
        let inv_fields = fields.inverted_tbl();
        let inv_methods = methods.inverted_tbl();
        FrozenMappings { classes, fields, methods, inv_classes, inv_fields, inv_methods }
    }

    /// The empty mapping.
    pub fn empty() -> (r: FrozenMappings)
        ensures
            r.wf(),
            r.classes_v() == Seq::<(Seq<char>, Seq<char>)>::empty(),
            r.fields_v() == Seq::<((Seq<char>, Seq<char>), (Seq<char>, Seq<char>))>::empty(),
            r.methods_v() == Seq::<
                ((Seq<char>, Seq<char>, Seq<char>), (Seq<char>, Seq<char>, Seq<char>)),
            >::empty(),
    {
        let r = FrozenMappings::new_raw(Table::new(), Table::new(), Table::new());
        r
    }

    /// Builds a snapshot from builder tables: the renamed side of every
    /// field and method is resolved against the final class table.
    pub fn new_ref(
        classes: &Table<ReferenceType, ReferenceType>,
        fields: &Table<FieldData, String>,
        methods: &Table<MethodData, String>,
    ) -> (r: FrozenMappings)
        requires
            classes.distinct() && classes.all_wf(),
            fields.distinct() && fields.all_wf(),
            methods.distinct() && methods.all_wf(),
        ensures
            r.wf(),
            r.classes_v() == classes.map_v(),
            r.fields_v() == resolve_field_entries(classes.map_v(), fields.map_v()),
            r.methods_v() == resolve_method_entries(classes.map_v(), methods.map_v()),
            r.inv_classes_v() == invert_tbl(classes.map_v()),
            r.inv_fields_v() == invert_tbl(resolve_field_entries(classes.map_v(), fields.map_v())),
            r.inv_methods_v() == invert_tbl(
                resolve_method_entries(classes.map_v(), methods.map_v()),
            ),
    {
        let ghost cv = classes.map_v();
        let ctbl = classes.dup();
        proof {
            lemma_table_classes_wf(classes);
        }
        let mut ftbl: Table<FieldData, FieldData> = Table::new();
        let fn_count = fields.len();
        let mut i: usize = 0;
        while i < fn_count
            invariant
                fields.distinct() && fields.all_wf(),
                classes_v_wf(cv),
                cv == classes.map_v(),
                ctbl.map_v() == cv,
                fn_count == fields.map_v().len(),
                0 <= i <= fn_count,
                ftbl.map_v() == resolve_field_entries(cv, fields.map_v()).take(i as int),
                ftbl.distinct(),
                ftbl.all_wf(),
            decreases fn_count - i,
        {
            let ghost target = resolve_field_entries(cv, fields.map_v());
            let e = fields.index(i);
            let key = e.0.dup();
            let name = e.1.dup();
            let declaring = e.0.declaring_type().transform_class(&ctbl);
            let value = FieldData::new(name, declaring);
            proof {
                assert forall|j: int| 0 <= j < i implies ftbl.map_v()[j].0 != key@ by {
                    assert(ftbl.map_v()[j].0 == target[j].0);
                    assert(target[j].0 == fields.map_v()[j].0);
                    assert(key@ == fields.map_v()[i as int].0);
                }
                lemma_key_index_absent(ftbl.map_v(), key@);
            }
            ftbl.insert(key, value);
            proof {
                assert(ftbl.map_v() =~= resolve_field_entries(cv, fields.map_v()).take(i + 1));
            }
            i = i + 1;
        }
        proof {
            assert(resolve_field_entries(cv, fields.map_v()).take(fn_count as int)
                =~= resolve_field_entries(cv, fields.map_v()));
        }
        let mut mtbl: Table<MethodData, MethodData> = Table::new();
        let mn_count = methods.len();
        let mut i: usize = 0;
        while i < mn_count
            invariant
                methods.distinct() && methods.all_wf(),
                classes_v_wf(cv),
                cv == classes.map_v(),
                ctbl.map_v() == cv,
                mn_count == methods.map_v().len(),
                0 <= i <= mn_count,
                mtbl.map_v() == resolve_method_entries(cv, methods.map_v()).take(i as int),
                mtbl.distinct(),
                mtbl.all_wf(),
            decreases mn_count - i,
        {
            let ghost target = resolve_method_entries(cv, methods.map_v());
            let e = methods.index(i);
            let key = e.0.dup();
            let name = e.1.dup();
            let declaring = e.0.declaring_type().transform_class(&ctbl);
            let signature = e.0.signature().raw_transform_class(&ctbl);
            let value = MethodData::new(name, declaring, signature);
            proof {
                assert forall|j: int| 0 <= j < i implies mtbl.map_v()[j].0 != key@ by {
                    assert(mtbl.map_v()[j].0 == target[j].0);
                    assert(target[j].0 == methods.map_v()[j].0);
                    assert(key@ == methods.map_v()[i as int].0);
                }
                lemma_key_index_absent(mtbl.map_v(), key@);
            }
            mtbl.insert(key, value);
            proof {
                assert(mtbl.map_v() =~= resolve_method_entries(cv, methods.map_v()).take(i + 1));
            }
            i = i + 1;
        }
        proof {
            assert(resolve_method_entries(cv, methods.map_v()).take(mn_count as int)
                =~= resolve_method_entries(cv, methods.map_v()));
        }
        FrozenMappings::new_raw(ctbl, ftbl, mtbl)
    }

    /// Builds a snapshot from plain entry lists.  Later entries win over
    /// earlier ones with the same key, keeping the first position, and
    /// the renamed sides are resolved against the full class table.
    pub fn new(
        classes: Vec<(ReferenceType, ReferenceType)>,
        fields: Vec<(FieldData, String)>,
        methods: Vec<(MethodData, String)>,
    ) -> (r: FrozenMappings)
        requires
            forall|i: int|
                0 <= i < classes@.len() ==> ((#[trigger] classes@[i]).0.wf()
                    && classes@[i].1.wf()),
            forall|i: int| 0 <= i < fields@.len() ==> (#[trigger] fields@[i]).0.wf(),
            forall|i: int| 0 <= i < methods@.len() ==> (#[trigger] methods@[i]).0.wf(),
        ensures
            r.wf(),
            r.classes_v() == tbl_insert_all(
                Seq::<(Seq<char>, Seq<char>)>::empty(),
                classes@.map_values(|e: (ReferenceType, ReferenceType)| (e.0@, e.1@)),
            ),
            r.fields_v() == resolve_field_entries(
                r.classes_v(),
                tbl_insert_all(
                    Seq::<((Seq<char>, Seq<char>), Seq<char>)>::empty(),
                    fields@.map_values(|e: (FieldData, String)| (e.0@, e.1@)),
                ),
            ),
            r.methods_v() == resolve_method_entries(
                r.classes_v(),
                tbl_insert_all(
                    Seq::<((Seq<char>, Seq<char>, Seq<char>), Seq<char>)>::empty(),
                    methods@.map_values(|e: (MethodData, String)| (e.0@, e.1@)),
                ),
            ),
            r.inv_classes_v() == invert_tbl(r.classes_v()),
            r.inv_fields_v() == invert_tbl(r.fields_v()),
            r.inv_methods_v() == invert_tbl(r.methods_v()),
    {
        let ghost cvs = classes@.map_values(|e: (ReferenceType, ReferenceType)| (e.0@, e.1@));
        let ghost fvs = fields@.map_values(|e: (FieldData, String)| (e.0@, e.1@));
        let ghost mvs = methods@.map_values(|e: (MethodData, String)| (e.0@, e.1@));
        let mut ctbl: Table<ReferenceType, ReferenceType> = Table::new();
        let n = classes.len();
        let mut i: usize = 0;
        while i < n
            invariant
                n == classes@.len(),
                cvs == classes@.map_values(|e: (ReferenceType, ReferenceType)| (e.0@, e.1@)),
                forall|j: int|
                    0 <= j < classes@.len() ==> ((#[trigger] classes@[j]).0.wf()
                        && classes@[j].1.wf()),
                0 <= i <= n,
                ctbl.map_v() == tbl_insert_all(
                    Seq::<(Seq<char>, Seq<char>)>::empty(),
                    cvs.take(i as int),
                ),
                ctbl.distinct(),
                ctbl.all_wf(),
            decreases n - i,
        {
            let k = classes[i].0.clone();
            let v = classes[i].1.clone();
            proof {
                assert(cvs.take(i + 1).drop_last() =~= cvs.take(i as int));
            }
            ctbl.insert(k, v);
            i = i + 1;
        }
        proof {
            assert(cvs.take(n as int) =~= cvs);
        }
        let mut ftbl: Table<FieldData, String> = Table::new();
        let n = fields.len();
        let mut i: usize = 0;
        while i < n
            invariant
                n == fields@.len(),
                fvs == fields@.map_values(|e: (FieldData, String)| (e.0@, e.1@)),
                forall|j: int| 0 <= j < fields@.len() ==> (#[trigger] fields@[j]).0.wf(),
                0 <= i <= n,
                ftbl.map_v() == tbl_insert_all(
                    Seq::<((Seq<char>, Seq<char>), Seq<char>)>::empty(),
                    fvs.take(i as int),
                ),
                ftbl.distinct(),
                ftbl.all_wf(),
            decreases n - i,
        {
            let k = fields[i].0.clone();
            let v = fields[i].1.clone();
            proof {
                assert(fvs.take(i + 1).drop_last() =~= fvs.take(i as int));
            }
            ftbl.insert(k, v);
            i = i + 1;
        }
        proof {
            assert(fvs.take(n as int) =~= fvs);
        }
        let mut mtbl: Table<MethodData, String> = Table::new();
        let n = methods.len();
        let mut i: usize = 0;
        while i < n
            invariant
                n == methods@.len(),
                mvs == methods@.map_values(|e: (MethodData, String)| (e.0@, e.1@)),
                forall|j: int| 0 <= j < methods@.len() ==> (#[trigger] methods@[j]).0.wf(),
                0 <= i <= n,
                mtbl.map_v() == tbl_insert_all(
                    Seq::<((Seq<char>, Seq<char>, Seq<char>), Seq<char>)>::empty(),
                    mvs.take(i as int),
                ),
                mtbl.distinct(),
                mtbl.all_wf(),
            decreases n - i,
        {
            let k = methods[i].0.clone();
            let v = methods[i].1.clone();
            proof {
                assert(mvs.take(i + 1).drop_last() =~= mvs.take(i as int));
            }
            mtbl.insert(k, v);
            i = i + 1;
        }
        proof {
            assert(mvs.take(n as int) =~= mvs);
        }
        FrozenMappings::new_ref(&ctbl, &ftbl, &mtbl)
    }

    /// The renamed class stored for an original, if any.
    pub fn get_remapped_class(&self, original: &ReferenceType) -> (r: Option<&ReferenceType>)
        ensures
            r matches Some(t) ==> lookup(self.classes_v(), original@) == Some(t@),
            r is Some <==> has_key(self.classes_v(), original@),
            self.wf() ==> (r matches Some(t) ==> t.wf()),
    {
        self.classes.get(original)
    }

    /// The renamed field stored for an original, if any.
    pub fn get_remapped_field(&self, original: &FieldData) -> (r: Option<FieldData>)
        ensures
            r matches Some(f) ==> lookup(self.fields_v(), original@) == Some(f@),
            r is Some <==> has_key(self.fields_v(), original@),
            self.wf() ==> (r matches Some(f) ==> f.wf()),
    {
        match self.fields.get(original) {
            Some(f) => Some(f.dup()),
            None => None,
        }
    }

    /// The renamed method stored for an original, if any.
    pub fn get_remapped_method(&self, original: &MethodData) -> (r: Option<MethodData>)
        ensures
            r matches Some(m) ==> lookup(self.methods_v(), original@) == Some(m@),
            r is Some <==> has_key(self.methods_v(), original@),
            self.wf() ==> (r matches Some(m) ==> m.wf()),
    {
        match self.methods.get(original) {
            Some(m) => Some(m.dup()),
            None => None,
        }
    }

    /// The remapped class: the original itself when no entry exists.
    pub fn remap_class(&self, original: &ReferenceType) -> (r: ReferenceType)
        requires
            self.wf(),
            original.wf(),
        ensures
            r@ == remap_class_v(self.classes_v(), original@),
            r.wf(),
    {
        proof {
            self.lemma_wf();
        }
        original.transform_class(&self.classes)
    }

    /// The remapped class for a dotted or slash-separated name.
    pub fn remap_class_name(&self, original: &str) -> (r: ReferenceType)
        requires
            self.wf(),
            forall|i: int| 0 <= i < original@.len() ==> original@[i] != ';',
        ensures
            r@ == remap_class_v(
                self.classes_v(),
                crate::model::ref_desc_of(crate::types::dots_to_slashes(original@)),
            ),
            r.wf(),
    {
        let t = ReferenceType::from_name(original);
        self.remap_class(&t)
    }

    /// The remapped type descriptor: nested references remapped through
    /// the class table.
    pub fn remap_type(&self, original: &TypeDescriptor) -> (r: TypeDescriptor)
        requires
            self.wf(),
            original.wf(),
        ensures
            r@ == crate::model::remap_type_v(self.classes_v(), original@),
            r.wf(),
    {
        proof {
            self.lemma_wf();
        }
        original.transform_class(&self.classes)
    }

    /// The remapped field: the stored entry, or the original with only
    /// its declaring class propagated.
    pub fn remap_field(&self, original: &FieldData) -> (r: FieldData)
        requires
            self.wf(),
            original.wf(),
        ensures
            r@ == remap_field_total_v(self.classes_v(), self.fields_v(), original@),
            r.wf(),
    {
        proof {
            self.lemma_wf();
        }
        match self.get_remapped_field(original) {
            Some(f) => f,
            None => original.transform_class(&self.classes),
        }
    }

    /// The remapped method: the stored entry, or the original with its
    /// declaring class and signature propagated.
    pub fn remap_method(&self, original: &MethodData) -> (r: MethodData)
        requires
            self.wf(),
            original.wf(),
        ensures
            r@ == remap_method_total_v(self.classes_v(), self.methods_v(), original@),
            r.wf(),
    {
        proof {
            self.lemma_wf();
        }
        match self.get_remapped_method(original) {
            Some(m) => m,
            None => original.transform_class(&self.classes),
        }
    }

    /// This snapshot itself; the frozen form of a frozen mapping.
    pub fn frozen(&self) -> (r: FrozenMappings)
        requires
            self.wf(),
        ensures
            r.wf(),
            r.classes_v() == self.classes_v(),
            r.fields_v() == self.fields_v(),
            r.methods_v() == self.methods_v(),
            r.inv_classes_v() == self.inv_classes_v(),
            r.inv_fields_v() == self.inv_fields_v(),
            r.inv_methods_v() == self.inv_methods_v(),
    {
        self.clone()
    }

    /// The mapping with original and renamed sides swapped in every
    /// table.  Inverting twice gives the original tables back exactly.
    pub fn inverted(&self) -> (r: FrozenMappings)
        requires
            self.wf(),
        ensures
            r.wf(),
            r.classes_v() == self.inv_classes_v(),
            r.fields_v() == self.inv_fields_v(),
            r.methods_v() == self.inv_methods_v(),
            r.inv_classes_v() == self.classes_v(),
            r.inv_fields_v() == self.fields_v(),
            r.inv_methods_v() == self.methods_v(),
    {
        FrozenMappings {
            classes: self.inv_classes.dup(),
            fields: self.inv_fields.dup(),
            methods: self.inv_methods.dup(),
            inv_classes: self.classes.dup(),
            inv_fields: self.fields.dup(),
            inv_methods: self.methods.dup(),
        }
    }

    /// A mutable builder holding this snapshot's entries.
    pub fn rebuild(&self) -> (r: SimpleMappings)
        requires
            self.wf(),
        ensures
            r.wf(),
            r.classes_v() == self.classes_v(),
            r.fields_v() == self.fields_v().map_values(
                |e: ((Seq<char>, Seq<char>), (Seq<char>, Seq<char>))| (e.0, e.1.1),
            ),
            r.methods_v() == self.methods_v().map_values(
                |e: ((Seq<char>, Seq<char>, Seq<char>), (Seq<char>, Seq<char>, Seq<char>))|
                    (e.0, e.1.1),
            ),
    {
        let ghost ftarget = self.fields_v().map_values(
            |e: ((Seq<char>, Seq<char>), (Seq<char>, Seq<char>))| (e.0, e.1.1),
        );
        let ghost mtarget = self.methods_v().map_values(
            |e: ((Seq<char>, Seq<char>, Seq<char>), (Seq<char>, Seq<char>, Seq<char>))|
                (e.0, e.1.1),
        );
        let classes = self.classes.dup();
        let mut field_names: Table<FieldData, String> = Table::new();
        let n = self.fields.len();
        let mut i: usize = 0;
        while i < n
            invariant
                self.wf(),
                ftarget == self.fields_v().map_values(
                    |e: ((Seq<char>, Seq<char>), (Seq<char>, Seq<char>))| (e.0, e.1.1),
                ),
                n == self.fields_v().len(),
                0 <= i <= n,
                field_names.map_v() == ftarget.take(i as int),
                field_names.distinct(),
                field_names.all_wf(),
            decreases n - i,
        {
            let e = self.fields.index(i);
            let key = e.0.dup();
            let name = String::from_str(e.1.name());
            proof {
                assert forall|j: int| 0 <= j < i implies field_names.map_v()[j].0 != key@ by {
                    assert(field_names.map_v()[j].0 == ftarget[j].0);
                    assert(ftarget[j].0 == self.fields_v()[j].0);
                    assert(key@ == self.fields_v()[i as int].0);
                }
                lemma_key_index_absent(field_names.map_v(), key@);
            }
            field_names.insert(key, name);
            proof {
                assert(field_names.map_v() =~= ftarget.take(i + 1));
            }
            i = i + 1;
        }
        proof {
            assert(ftarget.take(n as int) =~= ftarget);
        }
        let mut method_names: Table<MethodData, String> = Table::new();
        let n = self.methods.len();
        let mut i: usize = 0;
        while i < n
            invariant
                self.wf(),
                mtarget == self.methods_v().map_values(
                    |e: ((Seq<char>, Seq<char>, Seq<char>), (Seq<char>, Seq<char>, Seq<char>))|
                        (e.0, e.1.1),
                ),
                n == self.methods_v().len(),
                0 <= i <= n,
                method_names.map_v() == mtarget.take(i as int),
                method_names.distinct(),
                method_names.all_wf(),
            decreases n - i,
        {
            let e = self.methods.index(i);
            let key = e.0.dup();
            let name = String::from_str(e.1.name());
            proof {
                assert forall|j: int| 0 <= j < i implies method_names.map_v()[j].0 != key@ by {
                    assert(method_names.map_v()[j].0 == mtarget[j].0);
                    assert(mtarget[j].0 == self.methods_v()[j].0);
                    assert(key@ == self.methods_v()[i as int].0);
                }
                lemma_key_index_absent(method_names.map_v(), key@);
            }
            method_names.insert(key, name);
            proof {
                assert(method_names.map_v() =~= mtarget.take(i + 1));
            }
            i = i + 1;
        }
        proof {
            assert(mtarget.take(n as int) =~= mtarget);
        }
        SimpleMappings::from_tables(classes, field_names, method_names)
    }

    /// Chains another mapping onto this one: the renamed result of this
    /// mapping becomes the original of the next.  Entries of the second
    /// stage whose original is not an output of the first are adopted,
    /// their keys rewritten to the oldest known name through this
    /// mapping's inverse; every entry of the first stage has its renamed
    /// side pushed through the second stage.
    pub fn chain(&self, mapping: &FrozenMappings) -> (r: FrozenMappings)
        requires
            self.wf(),
            mapping.wf(),
        ensures
            r.wf(),
            r.classes_v() == crate::model::chain_classes(
                self.classes_v(),
                self.inv_classes_v(),
                mapping.classes_v(),
            ),
            r.fields_v() == crate::model::chain_fields(
                self.fields_v(),
                self.inv_fields_v(),
                self.inv_classes_v(),
                mapping.classes_v(),
                mapping.fields_v(),
            ),
            r.methods_v() == crate::model::chain_methods(
                self.methods_v(),
                self.inv_methods_v(),
                self.inv_classes_v(),
                mapping.classes_v(),
                mapping.methods_v(),
            ),
            r.inv_classes_v() == invert_tbl(r.classes_v()),
            r.inv_fields_v() == invert_tbl(r.fields_v()),
            r.inv_methods_v() == invert_tbl(r.methods_v()),
    {
        proof {
            self.lemma_wf();
            mapping.lemma_wf();
        }
        let ghost a_inv_c = self.inv_classes_v();
        let ghost bcv = mapping.classes_v();
        let ghost bfv = mapping.fields_v();
        let ghost bmv = mapping.methods_v();
        // first pass: adopt the second stage's new entries
        let mut classes: Table<ReferenceType, ReferenceType> = Table::new();
        let n = mapping.classes.len();
        let mut i: usize = 0;
        while i < n
            invariant
                self.wf(),
                mapping.wf(),
                a_inv_c == self.inv_classes_v(),
                bcv == mapping.classes_v(),
                n == bcv.len(),
                0 <= i <= n,
                classes.map_v() == crate::model::chain_classes_p1(a_inv_c, bcv.take(i as int)),
                classes.distinct(),
                classes.all_wf(),
            decreases n - i,
        {
            let e = mapping.classes.index(i);
            proof {
                assert(bcv.take(i + 1).drop_last() =~= bcv.take(i as int));
            }
            match self.inv_classes.get(&e.0) {
                Some(_) => (),
                None => {
                    classes.insert(e.0.dup(), e.1.dup());
                },
            }
            i = i + 1;
        }
        proof {
            assert(bcv.take(n as int) =~= bcv);
        }
        let mut fields: Table<FieldData, FieldData> = Table::new();
        let n = mapping.fields.len();
        let mut i: usize = 0;
        while i < n
            invariant
                self.wf(),
                mapping.wf(),
                a_inv_c == self.inv_classes_v(),
                bfv == mapping.fields_v(),
                n == bfv.len(),
                0 <= i <= n,
                fields.map_v() == crate::model::chain_fields_p1(
                    self.inv_fields_v(),
                    a_inv_c,
                    bfv.take(i as int),
                ),
                fields.distinct(),
                fields.all_wf(),
            decreases n - i,
        {
            let e = mapping.fields.index(i);
            proof {
                assert(bfv.take(i + 1).drop_last() =~= bfv.take(i as int));
                self.lemma_wf();
            }
            match self.inv_fields.get(&e.0) {
                Some(_) => (),
                None => {
                    let key = e.0.transform_class(&self.inv_classes);
                    fields.insert(key, e.1.dup());
                },
            }
            i = i + 1;
        }
        proof {
            assert(bfv.take(n as int) =~= bfv);
        }
        let mut methods: Table<MethodData, MethodData> = Table::new();
        let n = mapping.methods.len();
        let mut i: usize = 0;
        while i < n
            invariant
                self.wf(),
                mapping.wf(),
                a_inv_c == self.inv_classes_v(),
                bmv == mapping.methods_v(),
                n == bmv.len(),
                0 <= i <= n,
                methods.map_v() == crate::model::chain_methods_p1(
                    self.inv_methods_v(),
                    a_inv_c,
                    bmv.take(i as int),
                ),
                methods.distinct(),
                methods.all_wf(),
            decreases n - i,
        {
            let e = mapping.methods.index(i);
            proof {
                assert(bmv.take(i + 1).drop_last() =~= bmv.take(i as int));
                self.lemma_wf();
            }
            match self.inv_methods.get(&e.0) {
                Some(_) => (),
                None => {
                    let key = e.0.transform_class(&self.inv_classes);
                    methods.insert(key, e.1.dup());
                },
            }
            i = i + 1;
        }
        proof {
            assert(bmv.take(n as int) =~= bmv);
        }
        // second pass: push this mapping's entries through the next stage
        let ghost p1c = classes.map_v();
        let acv = self.classes.len();
        let mut i: usize = 0;
        while i < acv
            invariant
                self.wf(),
                mapping.wf(),
                bcv == mapping.classes_v(),
                acv == self.classes_v().len(),
                0 <= i <= acv,
                classes.map_v() == crate::model::chain_classes_p2(
                    p1c,
                    self.classes_v().take(i as int),
                    bcv,
                ),
                classes.distinct(),
                classes.all_wf(),
            decreases acv - i,
        {
            let e = self.classes.index(i);
            proof {
                assert(self.classes_v().take(i + 1).drop_last() =~= self.classes_v().take(i as int));
            }
            let renamed = match mapping.classes.get(&e.1) {
                Some(x) => {
                    proof {
                        lemma_wf_lookup(bcv, e.1@);
                    }
                    x.clone()
                },
                None => e.1.dup(),
            };
            classes.insert(e.0.dup(), renamed);
            i = i + 1;
        }
        proof {
            assert(self.classes_v().take(acv as int) =~= self.classes_v());
        }
        let ghost p1f = fields.map_v();
        let afv = self.fields.len();
        let mut i: usize = 0;
        while i < afv
            invariant
                self.wf(),
                mapping.wf(),
                bcv == mapping.classes_v(),
                bfv == mapping.fields_v(),
                afv == self.fields_v().len(),
                0 <= i <= afv,
                fields.map_v() == crate::model::chain_fields_p2(
                    p1f,
                    self.fields_v().take(i as int),
                    bcv,
                    bfv,
                ),
                fields.distinct(),
                fields.all_wf(),
            decreases afv - i,
        {
            let e = self.fields.index(i);
            proof {
                assert(self.fields_v().take(i + 1).drop_last() =~= self.fields_v().take(i as int));
            }
            let renamed = mapping.remap_field(&e.1);
            fields.insert(e.0.dup(), renamed);
            i = i + 1;
        }
        proof {
            assert(self.fields_v().take(afv as int) =~= self.fields_v());
        }
        let ghost p1m = methods.map_v();
        let amv = self.methods.len();
        let mut i: usize = 0;
        while i < amv
            invariant
                self.wf(),
                mapping.wf(),
                bcv == mapping.classes_v(),
                bmv == mapping.methods_v(),
                amv == self.methods_v().len(),
                0 <= i <= amv,
                methods.map_v() == crate::model::chain_methods_p2(
                    p1m,
                    self.methods_v().take(i as int),
                    bcv,
                    bmv,
                ),
                methods.distinct(),
                methods.all_wf(),
            decreases amv - i,
        {
            let e = self.methods.index(i);
            proof {
                assert(self.methods_v().take(i + 1).drop_last() =~= self.methods_v().take(
                    i as int,
                ));
            }
            let renamed = mapping.remap_method(&e.1);
            methods.insert(e.0.dup(), renamed);
            i = i + 1;
        }
        proof {
            assert(self.methods_v().take(amv as int) =~= self.methods_v());
        }
        FrozenMappings::new_raw(classes, fields, methods)
    }

    /// The number of class entries.
    pub fn class_count(&self) -> (r: usize)
        ensures
            r == self.classes_v().len(),
    {
        self.classes.len()
    }

    /// The class entry at a position, in insertion order.
    pub fn class_at(&self, i: usize) -> (r: (&ReferenceType, &ReferenceType))
        requires
            i < self.classes_v().len(),
        ensures
            r.0@ == self.classes_v()[i as int].0,
            r.1@ == self.classes_v()[i as int].1,
            self.wf() ==> r.0.wf() && r.1.wf(),
    {
        let e = self.classes.index(i);
        (&e.0, &e.1)
    }

    /// The number of field entries.
    pub fn field_count(&self) -> (r: usize)
        ensures
            r == self.fields_v().len(),
    {
        self.fields.len()
    }

    /// The field entry at a position, in insertion order.
    pub fn field_at(&self, i: usize) -> (r: (&FieldData, &FieldData))
        requires
            i < self.fields_v().len(),
        ensures
            r.0@ == self.fields_v()[i as int].0,
            r.1@ == self.fields_v()[i as int].1,
            self.wf() ==> r.0.wf() && r.1.wf(),
    {
        let e = self.fields.index(i);
        (&e.0, &e.1)
    }

    /// The number of method entries.
    pub fn method_count(&self) -> (r: usize)
        ensures
            r == self.methods_v().len(),
    {
        self.methods.len()
    }

    /// The method entry at a position, in insertion order.
    pub fn method_at(&self, i: usize) -> (r: (&MethodData, &MethodData))
        requires
            i < self.methods_v().len(),
        ensures
            r.0@ == self.methods_v()[i as int].0,
            r.1@ == self.methods_v()[i as int].1,
            self.wf() ==> r.0.wf() && r.1.wf(),
    {
        let e = self.methods.index(i);
        (&e.0, &e.1)
    }
}

/// A class table's entries give a well-formed class-table view.
pub proof fn lemma_table_classes_wf(t: &Table<ReferenceType, ReferenceType>)
    requires
        t.all_wf(),
    ensures
        classes_v_wf(t.map_v()),
{
    assert forall|i: int|
        0 <= i < t.map_v().len() implies crate::model::valid_ref_desc(
        (#[trigger] t.map_v()[i]).0,
    ) && crate::model::valid_ref_desc(t.map_v()[i].1) by {
        assert(t.map_v()[i].0 == t.entries_s()[i].0@);
        assert(t.map_v()[i].1 == t.entries_s()[i].1@);
    }
}

impl Default for FrozenMappings {
    /// The empty mapping.
    fn default() -> (r: Self)
        ensures
            r.wf(),
            r.classes_v() == Seq::<(Seq<char>, Seq<char>)>::empty(),
            r.fields_v() == Seq::<((Seq<char>, Seq<char>), (Seq<char>, Seq<char>))>::empty(),
            r.methods_v() == Seq::<
                ((Seq<char>, Seq<char>, Seq<char>), (Seq<char>, Seq<char>, Seq<char>)),
            >::empty(),
    {
        FrozenMappings::empty()
    }
}

impl Clone for FrozenMappings {
    fn clone(&self) -> (res: Self)
        ensures
            res.classes_v() == self.classes_v(),
            res.fields_v() == self.fields_v(),
            res.methods_v() == self.methods_v(),
            res.inv_classes_v() == self.inv_classes_v(),
            res.inv_fields_v() == self.inv_fields_v(),
            res.inv_methods_v() == self.inv_methods_v(),
            self.wf() ==> res.wf(),
    {
        FrozenMappings {
            classes: self.classes.dup(),
            fields: self.fields.dup(),
            methods: self.methods.dup(),
            inv_classes: self.inv_classes.dup(),
            inv_fields: self.inv_fields.dup(),
            inv_methods: self.inv_methods.dup(),
        }
    }
}

impl PartialEq for FrozenMappings {
    fn eq(&self, other: &Self) -> (r: bool) {
        self.classes.same_mappings(&other.classes) && self.fields.same_mappings(&other.fields)
            && self.methods.same_mappings(&other.methods)
    }
}

impl vstd::std_specs::cmp::PartialEqSpecImpl for FrozenMappings {
    open spec fn obeys_eq_spec() -> bool {
        true
    }

    open spec fn eq_spec(&self, other: &Self) -> bool {
        &&& crate::model::tbl_equiv(self.classes_v(), other.classes_v())
        &&& crate::model::tbl_equiv(self.fields_v(), other.fields_v())
        &&& crate::model::tbl_equiv(self.methods_v(), other.methods_v())
    }
}

impl TypeTransformer for FrozenMappings {
    open spec fn class_table(&self) -> ClassesV {
        self.classes_v()
    }

    fn maybe_remap_class(&self, original: &ReferenceType) -> (r: Option<ReferenceType>) {
        match self.classes.get(original) {
            Some(v) => {
                proof {
                    lemma_wf_lookup(self.classes_v(), original@);
                }
                Some(v.clone())
            },
            None => None,
        }
    }
}

} // verus!
