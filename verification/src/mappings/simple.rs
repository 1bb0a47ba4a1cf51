//! The mutable builder: an ordered association of originals to renamed
//! names and classes, populated by a single writer and then frozen.

use vstd::prelude::*;
use vstd::string::StringExecFns;

use crate::descriptor::FieldData;
use crate::descriptor::MethodData;
use crate::mappings::frozen::FrozenMappings;
use crate::mappings::transformer::MapClass;
use crate::mappings::transformer::TypeTransformer;
use crate::model::classes_v_wf;
use crate::model::has_key;
use crate::model::lemma_wf_lookup;
use crate::model::lookup;
use crate::model::remap_class_v;
use crate::model::remap_method_key_v;
use crate::model::tbl_insert;
use crate::model::ClassesV;
use crate::model::FieldNamesV;
use crate::model::MethodNamesV;
use crate::tables::Table;
use crate::types::ReferenceType;
use crate::types::TypeDescriptor;

verus! {

/// The mutable, insertion-order-preserving builder.
#[derive(Debug)]
pub struct SimpleMappings {
    pub(crate) classes: Table<ReferenceType, ReferenceType>,
    pub(crate) field_names: Table<FieldData, String>,
    pub(crate) method_names: Table<MethodData, String>,
}

impl SimpleMappings {
    /// The class table, as views.
    pub closed spec fn classes_v(&self) -> ClassesV {
        self.classes.map_v()
    }

    /// The field table, as views: original key to renamed name.
    pub closed spec fn fields_v(&self) -> FieldNamesV {
        self.field_names.map_v()
    }

    /// The method table, as views.
    pub closed spec fn methods_v(&self) -> MethodNamesV {
        self.method_names.map_v()
    }

    /// The stored class pairs themselves.
    pub closed spec fn class_entries(&self) -> Seq<(ReferenceType, ReferenceType)> {
        self.classes.entries_s()
    }

    /// The stored field pairs themselves.
    pub closed spec fn field_entries(&self) -> Seq<(FieldData, String)> {
        self.field_names.entries_s()
    }

    /// The stored method pairs themselves.
    pub closed spec fn method_entries(&self) -> Seq<(MethodData, String)> {
        self.method_names.entries_s()
    }

    /// Tables hold well-formed entries under distinct keys.
    pub closed spec fn wf(&self) -> bool {
        &&& self.classes.distinct()
        &&& self.classes.all_wf()
        &&& self.field_names.distinct()
        &&& self.field_names.all_wf()
        &&& self.method_names.distinct()
        &&& self.method_names.all_wf()
    }

    /// A well-formed builder has a well-formed class-table view.
    pub proof fn lemma_classes_wf(&self)
        requires
            self.wf(),
        ensures
            classes_v_wf(self.classes_v()),
    {
        assert forall|i: int|
            0 <= i < self.classes_v().len() implies crate::model::valid_ref_desc(
            (#[trigger] self.classes_v()[i]).0,
        ) && crate::model::valid_ref_desc(self.classes_v()[i].1) by {
            assert(self.classes_v()[i].0 == self.classes.entries_s()[i].0@);
            assert(self.classes_v()[i].1 == self.classes.entries_s()[i].1@);
        }
    }

    pub fn new() -> (r: SimpleMappings)
        ensures
            r.wf(),
            r.classes_v() == Seq::<(Seq<char>, Seq<char>)>::empty(),
            r.fields_v() == Seq::<((Seq<char>, Seq<char>), Seq<char>)>::empty(),
            r.methods_v() == Seq::<((Seq<char>, Seq<char>, Seq<char>), Seq<char>)>::empty(),
    {
        SimpleMappings {
            classes: Table::new(),
            field_names: Table::new(),
            method_names: Table::new(),
        }
    }

    /// Wraps already built tables as a builder.
    pub(crate) fn from_tables(
        classes: Table<ReferenceType, ReferenceType>,
        field_names: Table<FieldData, String>,
        method_names: Table<MethodData, String>,
    ) -> (r: SimpleMappings)
        requires
            classes.distinct() && classes.all_wf(),
            field_names.distinct() && field_names.all_wf(),
            method_names.distinct() && method_names.all_wf(),
        ensures
            r.wf(),
            r.classes_v() == classes.map_v(),
            r.fields_v() == field_names.map_v(),
            r.methods_v() == method_names.map_v(),
    {
        SimpleMappings { classes, field_names, method_names }
    }

    /// The renamed class stored for an original, if any.
    pub fn get_remapped_class(&self, original: &ReferenceType) -> (r: Option<&ReferenceType>)
        ensures
            r matches Some(t) ==> lookup(self.classes_v(), original@) == Some(t@),
            r is Some <==> has_key(self.classes_v(), original@),
            self.wf() ==> (r matches Some(t) ==> t.wf()),
    {
        self.classes.get(original)
    }

    /// The renamed field for an original, if the builder holds an entry:
    /// the stored name under the original's declaring class remapped
    /// through the current class table.
    pub fn get_remapped_field(&self, original: &FieldData) -> (r: Option<FieldData>)
        requires
            self.wf(),
            original.wf(),
        ensures
            r is Some <==> has_key(self.fields_v(), original@),
            r matches Some(f) ==> f@ == (
                remap_class_v(self.classes_v(), original@.0),
                lookup(self.fields_v(), original@)->Some_0,
            ) && f.wf(),
    {
        proof {
            self.lemma_classes_wf();
        }
        match self.field_names.get(original) {
            Some(name) => {
                let declaring = original.declaring_type().transform_class(&self.classes);
                Some(FieldData::new(name.clone(), declaring))
            },
            None => None,
        }
    }

    /// The renamed method for an original, if the builder holds an
    /// entry: the stored name under the original's declaring class and
    /// signature remapped through the current class table.
    pub fn get_remapped_method(&self, original: &MethodData) -> (r: Option<MethodData>)
        requires
            self.wf(),
            original.wf(),
        ensures
            r is Some <==> has_key(self.methods_v(), original@),
            r matches Some(m) ==> m@ == (
                remap_method_key_v(self.classes_v(), original@).0,
                lookup(self.methods_v(), original@)->Some_0,
                remap_method_key_v(self.classes_v(), original@).2,
            ) && m.wf(),
    {
        proof {
            self.lemma_classes_wf();
        }
        match self.method_names.get(original) {
            Some(name) => {
                let declaring = original.declaring_type().transform_class(&self.classes);
                let signature = original.signature().raw_transform_class(&self.classes);
                Some(MethodData::new(name.clone(), declaring, signature))
            },
            None => None,
        }
    }

    /// The remapped class: the original itself when no entry exists.
    pub fn remap_class(&self, original: &ReferenceType) -> (r: ReferenceType)
        requires
            self.wf(),
            original.wf(),
        ensures
            r@ == remap_class_v(self.classes_v(), original@),
            r.wf(),
    {
        proof {
            self.lemma_classes_wf();
        }
        original.transform_class(&self.classes)
    }

    /// Records a class renaming, overwriting any prior entry.
    pub fn set_remapped_class(&mut self, original: ReferenceType, renamed: ReferenceType)
        requires
            old(self).wf(),
            original.wf(),
            renamed.wf(),
        ensures
            final(self).wf(),
            final(self).classes_v() == tbl_insert(old(self).classes_v(), original@, renamed@),
            final(self).fields_v() == old(self).fields_v(),
            final(self).methods_v() == old(self).methods_v(),
    {
        self.classes.insert(original, renamed);
    }

    /// Records a method renaming, overwriting any prior entry.
    pub fn set_method_name(&mut self, original: MethodData, renamed: String)
        requires
            old(self).wf(),
            original.wf(),
        ensures
            final(self).wf(),
            final(self).methods_v() == tbl_insert(old(self).methods_v(), original@, renamed@),
            final(self).classes_v() == old(self).classes_v(),
            final(self).fields_v() == old(self).fields_v(),
    {
        self.method_names.insert(original, renamed);
    }

    /// Records a field renaming, overwriting any prior entry.
    pub fn set_field_name(&mut self, original: FieldData, renamed: String)
        requires
            old(self).wf(),
            original.wf(),
        ensures
            final(self).wf(),
            final(self).fields_v() == tbl_insert(old(self).fields_v(), original@, renamed@),
            final(self).classes_v() == old(self).classes_v(),
            final(self).methods_v() == old(self).methods_v(),
    {
        self.field_names.insert(original, renamed);
    }

    /// Keeps only the class entries the predicate approves, in order:
    /// every kept entry was stored and approved, every dropped entry was
    /// refused.
    pub fn retain_classes<F: Fn(&ReferenceType, &ReferenceType) -> bool>(&mut self, func: F)
        requires
            old(self).wf(),
            forall|k: &ReferenceType, v: &ReferenceType| #[trigger] func.requires((k, v)),
        ensures
            final(self).wf(),
            final(self).fields_v() == old(self).fields_v(),
            final(self).methods_v() == old(self).methods_v(),
            exists|idx: Seq<int>|
                #![trigger idx.len()]
                {
                    &&& idx.len() == final(self).class_entries().len()
                    &&& (forall|a: int, b: int| 0 <= a < b < idx.len() ==> idx[a] < idx[b])
                    &&& (forall|a: int|
                        0 <= a < idx.len() ==> 0 <= #[trigger] idx[a] < old(
                            self,
                        ).class_entries().len() && final(self).class_entries()[a] == old(
                            self,
                        ).class_entries()[idx[a]])
                    &&& (forall|a: int|
                        0 <= a < idx.len() ==> func.ensures(
                            (
                                &old(self).class_entries()[#[trigger] idx[a]].0,
                                &old(self).class_entries()[idx[a]].1,
                            ),
                            true,
                        ))
                    &&& (forall|j: int|
                        0 <= j < old(self).class_entries().len() && !idx.contains(j) ==> func.ensures(
                            (
                                &(#[trigger] old(self).class_entries()[j]).0,
                                &old(self).class_entries()[j].1,
                            ),
                            false,
                        ))
                },
    {
        let ghost src = self.classes.entries_s();
        self.classes.retain(func);
        proof {
            let w = choose|w: Seq<int>|
                #![trigger w.len()]
                {
                    &&& w.len() == self.classes.entries_s().len()
                    &&& (forall|a: int, b: int| 0 <= a < b < w.len() ==> w[a] < w[b])
                    &&& (forall|a: int|
                        0 <= a < w.len() ==> 0 <= #[trigger] w[a] < src.len()
                            && self.classes.entries_s()[a] == src[w[a]])
                    &&& (forall|a: int|
                        0 <= a < w.len() ==> func.ensures(
                            (&src[#[trigger] w[a]].0, &src[w[a]].1),
                            true,
                        ))
                    &&& (forall|j: int|
                        0 <= j < src.len() && !w.contains(j) ==> func.ensures(
                            (&(#[trigger] src[j]).0, &src[j].1),
                            false,
                        ))
                };
            assert(w.len() == self.class_entries().len());
        }
    }

    /// Keeps only the field entries the predicate approves, in order:
    /// every kept entry was stored and approved, every dropped entry was
    /// refused.
    pub fn retain_fields<F: Fn(&FieldData, &String) -> bool>(&mut self, func: F)
        requires
            old(self).wf(),
            forall|k: &FieldData, v: &String| #[trigger] func.requires((k, v)),
        ensures
            final(self).wf(),
            final(self).classes_v() == old(self).classes_v(),
            final(self).methods_v() == old(self).methods_v(),
            exists|idx: Seq<int>|
                #![trigger idx.len()]
                {
                    &&& idx.len() == final(self).field_entries().len()
                    &&& (forall|a: int, b: int| 0 <= a < b < idx.len() ==> idx[a] < idx[b])
                    &&& (forall|a: int|
                        0 <= a < idx.len() ==> 0 <= #[trigger] idx[a] < old(
                            self,
                        ).field_entries().len() && final(self).field_entries()[a] == old(
                            self,
                        ).field_entries()[idx[a]])
                    &&& (forall|a: int|
                        0 <= a < idx.len() ==> func.ensures(
                            (
                                &old(self).field_entries()[#[trigger] idx[a]].0,
                                &old(self).field_entries()[idx[a]].1,
                            ),
                            true,
                        ))
                    &&& (forall|j: int|
                        0 <= j < old(self).field_entries().len() && !idx.contains(j) ==> func.ensures(
                            (
                                &(#[trigger] old(self).field_entries()[j]).0,
                                &old(self).field_entries()[j].1,
                            ),
                            false,
                        ))
                },
    {
        let ghost src = self.field_names.entries_s();
        self.field_names.retain(func);
        proof {
            let w = choose|w: Seq<int>|
                #![trigger w.len()]
                {
                    &&& w.len() == self.field_names.entries_s().len()
                    &&& (forall|a: int, b: int| 0 <= a < b < w.len() ==> w[a] < w[b])
                    &&& (forall|a: int|
                        0 <= a < w.len() ==> 0 <= #[trigger] w[a] < src.len()
                            && self.field_names.entries_s()[a] == src[w[a]])
                    &&& (forall|a: int|
                        0 <= a < w.len() ==> func.ensures(
                            (&src[#[trigger] w[a]].0, &src[w[a]].1),
                            true,
                        ))
                    &&& (forall|j: int|
                        0 <= j < src.len() && !w.contains(j) ==> func.ensures(
                            (&(#[trigger] src[j]).0, &src[j].1),
                            false,
                        ))
                };
            assert(w.len() == self.field_entries().len());
        }
    }

    /// Keeps only the method entries the predicate approves, in order:
    /// every kept entry was stored and approved, every dropped entry was
    /// refused.
    pub fn retain_methods<F: Fn(&MethodData, &String) -> bool>(&mut self, func: F)
        requires
            old(self).wf(),
            forall|k: &MethodData, v: &String| #[trigger] func.requires((k, v)),
        ensures
            final(self).wf(),
            final(self).classes_v() == old(self).classes_v(),
            final(self).fields_v() == old(self).fields_v(),
            exists|idx: Seq<int>|
                #![trigger idx.len()]
                {
                    &&& idx.len() == final(self).method_entries().len()
                    &&& (forall|a: int, b: int| 0 <= a < b < idx.len() ==> idx[a] < idx[b])
                    &&& (forall|a: int|
                        0 <= a < idx.len() ==> 0 <= #[trigger] idx[a] < old(
                            self,
                        ).method_entries().len() && final(self).method_entries()[a] == old(
                            self,
                        ).method_entries()[idx[a]])
                    &&& (forall|a: int|
                        0 <= a < idx.len() ==> func.ensures(
                            (
                                &old(self).method_entries()[#[trigger] idx[a]].0,
                                &old(self).method_entries()[idx[a]].1,
                            ),
                            true,
                        ))
                    &&& (forall|j: int|
                        0 <= j < old(self).method_entries().len() && !idx.contains(j) ==> func.ensures(
                            (
                                &(#[trigger] old(self).method_entries()[j]).0,
                                &old(self).method_entries()[j].1,
                            ),
                            false,
                        ))
                },
    {
        let ghost src = self.method_names.entries_s();
        self.method_names.retain(func);
        proof {
            let w = choose|w: Seq<int>|
                #![trigger w.len()]
                {
                    &&& w.len() == self.method_names.entries_s().len()
                    &&& (forall|a: int, b: int| 0 <= a < b < w.len() ==> w[a] < w[b])
                    &&& (forall|a: int|
                        0 <= a < w.len() ==> 0 <= #[trigger] w[a] < src.len()
                            && self.method_names.entries_s()[a] == src[w[a]])
                    &&& (forall|a: int|
                        0 <= a < w.len() ==> func.ensures(
                            (&src[#[trigger] w[a]].0, &src[w[a]].1),
                            true,
                        ))
                    &&& (forall|j: int|
                        0 <= j < src.len() && !w.contains(j) ==> func.ensures(
                            (&(#[trigger] src[j]).0, &src[j].1),
                            false,
                        ))
                };
            assert(w.len() == self.method_entries().len());
        }
    }

    pub fn clear_classes(&mut self)
        requires
            old(self).wf(),
        ensures
            final(self).wf(),
            final(self).classes_v() == Seq::<(Seq<char>, Seq<char>)>::empty(),
            final(self).fields_v() == old(self).fields_v(),
            final(self).methods_v() == old(self).methods_v(),
    {
        self.classes.clear();
    }

    pub fn clear_fields(&mut self)
        requires
            old(self).wf(),
        ensures
            final(self).wf(),
            final(self).fields_v() == Seq::<((Seq<char>, Seq<char>), Seq<char>)>::empty(),
            final(self).classes_v() == old(self).classes_v(),
            final(self).methods_v() == old(self).methods_v(),
    {
        self.field_names.clear();
    }

    pub fn clear_methods(&mut self)
        requires
            old(self).wf(),
        ensures
            final(self).wf(),
            final(self).methods_v() == Seq::<((Seq<char>, Seq<char>, Seq<char>), Seq<char>)>::empty(),
            final(self).classes_v() == old(self).classes_v(),
            final(self).fields_v() == old(self).fields_v(),
    {
        self.method_names.clear();
    }

    /// Materializes the current state as an immutable snapshot, with
    /// every renamed side resolved against the final class table.
    pub fn frozen(&self) -> (r: FrozenMappings)
        requires
            self.wf(),
        ensures
            r.wf(),
            r.classes_v() == self.classes_v(),
            r.fields_v() == crate::model::resolve_field_entries(self.classes_v(), self.fields_v()),
            r.methods_v() == crate::model::resolve_method_entries(
                self.classes_v(),
                self.methods_v(),
            ),
            r.inv_classes_v() == crate::model::invert_tbl(r.classes_v()),
            r.inv_fields_v() == crate::model::invert_tbl(r.fields_v()),
            r.inv_methods_v() == crate::model::invert_tbl(r.methods_v()),
    {
        FrozenMappings::new_ref(&self.classes, &self.field_names, &self.method_names)
    }

    /// The frozen snapshot with original and renamed sides swapped.
    pub fn inverted(&self) -> (r: FrozenMappings)
        requires
            self.wf(),
        ensures
            r.wf(),
            r.classes_v() == crate::model::invert_tbl(self.classes_v()),
            r.fields_v() == crate::model::invert_tbl(
                crate::model::resolve_field_entries(self.classes_v(), self.fields_v()),
            ),
            r.methods_v() == crate::model::invert_tbl(
                crate::model::resolve_method_entries(self.classes_v(), self.methods_v()),
            ),
    {
        self.frozen().inverted()
    }
}

impl Default for SimpleMappings {
    fn default() -> (r: Self)
        ensures
            r.wf(),
            r.classes_v() == Seq::<(Seq<char>, Seq<char>)>::empty(),
            r.fields_v() == Seq::<((Seq<char>, Seq<char>), Seq<char>)>::empty(),
            r.methods_v() == Seq::<((Seq<char>, Seq<char>, Seq<char>), Seq<char>)>::empty(),
    {
        SimpleMappings::new()
    }
}

impl TypeTransformer for SimpleMappings {
    open spec fn class_table(&self) -> ClassesV {
        self.classes_v()
    }

    fn maybe_remap_class(&self, original: &ReferenceType) -> (r: Option<ReferenceType>) {
        match self.classes.get(original) {
            Some(v) => {
                proof {
                    lemma_wf_lookup(self.classes_v(), original@);
                }
                Some(v.clone())
            },
            None => None,
        }
    }
}

} // verus!
