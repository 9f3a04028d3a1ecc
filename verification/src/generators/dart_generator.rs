//! The table of class definitions that a generator for Dart fills from a
//! JSON document.
use vstd::prelude::*;
use crate::generators::NamingRule;
use crate::generators::class_model::{
    ClassModel, FieldModel, class_well_formed, descendants, in_walk_order, indices, well_formed,
};
use crate::generators::class_namer::lemma_renamed_well_formed;
use crate::generators::tree_laws::lemma_nested_same;

verus! {

/// The type of a field.
///
/// A nested class is referred to by its index in the generator's table, so
/// that a later change of the class's name reaches every field that refers
/// to it.
#[derive(Debug)]
pub enum FieldType {
    Dynamic,
    Boolean,
    Integer,
    Double,
    Text,
    List(Box<FieldType>),
    Class(usize),
}

impl FieldType {
    /// A copy of the type.
    pub fn duplicate(&self) -> (out: FieldType)
        ensures
            out == *self,
        decreases self,
    {
        match self {
            FieldType::Dynamic => FieldType::Dynamic,
            FieldType::Boolean => FieldType::Boolean,
            FieldType::Integer => FieldType::Integer,
            FieldType::Double => FieldType::Double,
            FieldType::Text => FieldType::Text,
            FieldType::List(inner) => FieldType::List(Box::new(inner.duplicate())),
            FieldType::Class(c) => FieldType::Class(*c),
        }
    }
}

/// A field of a class definition.
#[derive(Debug)]
pub struct Field {
    /// The key as the document spells it.
    pub key: String,
    /// The identifier of the field, in camel case.
    pub identifier: String,
    /// The key again, where the naming rule does not lead from the
    /// identifier back to it.
    pub wire_name: Option<String>,
    pub field_type: FieldType,
}

impl View for Field {
    type V = FieldModel;

    open spec fn view(&self) -> FieldModel {
        FieldModel {
            key: self.key@,
            identifier: self.identifier@,
            wire_name: match self.wire_name {
                Some(name) => Some(name@),
                None => None,
            },
            field_type: self.field_type,
        }
    }
}

/// One class to be emitted.
#[derive(Debug)]
pub struct ClassDefinition {
    pub class_name: String,
    /// The fields, in the order in which their keys were first seen.
    pub fields: Vec<Field>,
    /// The classes found directly inside this one, by index in the table.
    pub classes: Vec<usize>,
}

/// The fields as contracts speak of them.
pub open spec fn field_models(fields: Seq<Field>) -> Seq<FieldModel> {
    fields.map_values(|f: Field| f@)
}

impl View for ClassDefinition {
    type V = ClassModel;

    open spec fn view(&self) -> ClassModel {
        ClassModel {
            name: self.class_name@,
            fields: field_models(self.fields@),
            children: self.classes@,
        }
    }
}

/// The classes as contracts speak of them.
pub open spec fn class_models(classes: Seq<ClassDefinition>) -> Seq<ClassModel> {
    classes.map_values(|c: ClassDefinition| c@)
}

/// An empty class of the given name.
pub open spec fn empty_class(name: Seq<char>) -> ClassModel {
    ClassModel { name, fields: Seq::empty(), children: Seq::empty() }
}

/// The table with a new, empty class at its end, recorded as found inside
/// class `owner`.
pub open spec fn with_class(t: Seq<ClassModel>, owner: int, name: Seq<char>) -> Seq<ClassModel> {
    t.update(
        owner,
        ClassModel { children: t[owner].children.push(t.len() as usize), ..t[owner] },
    ).push(empty_class(name))
}

/// The table with one more field at the end of class `at`.
pub open spec fn with_field(t: Seq<ClassModel>, at: int, field: FieldModel) -> Seq<ClassModel> {
    t.update(at, ClassModel { fields: t[at].fields.push(field), ..t[at] })
}

/// The table with class `index` under a new name.
pub open spec fn renamed(t: Seq<ClassModel>, index: int, name: Seq<char>) -> Seq<ClassModel> {
    t.update(index, ClassModel { name, ..t[index] })
}

/// Generates Dart classes from a JSON document.
///
/// The generator owns a table of class definitions. The root class is at
/// index 0; every nested class is appended when the document is found to
/// hold it, so that the table lists the classes in the order of a
/// depth-first walk of the document.
#[derive(Debug)]
pub struct DartClassGenerator {
    classes: Vec<ClassDefinition>,
    naming_rule: NamingRule,
}

impl DartClassGenerator {
    /// The table of classes.
    pub closed spec fn table(&self) -> Seq<ClassModel> {
        class_models(self.classes@)
    }

    /// The naming rule that the generated serializer will follow.
    pub closed spec fn rule(&self) -> NamingRule {
        self.naming_rule
    }

    /// The table has a root, no class refers to itself or to a class
    /// before it, and the classes stand in the order of a depth-first walk
    /// from the root: every class is followed by the classes nested in it.
    pub open spec fn wf(&self) -> bool {
        &&& well_formed(self.table())
        &&& in_walk_order(self.table(), 0)
    }

    /// A generator whose table holds the root class alone, without fields.
    pub fn new(class_name: &str, naming_rule: NamingRule) -> (generator: DartClassGenerator)
        ensures
            generator.table() == seq![empty_class(class_name@)],
            generator.rule() == naming_rule,
            generator.wf(),
    {
        let root = ClassDefinition {
            class_name: class_name.to_owned(),
            fields: Vec::new(),
            classes: Vec::new(),
        };
        let mut classes = Vec::new();
        classes.push(root);
        let generator = DartClassGenerator { classes, naming_rule };
        assert(generator.table() =~= seq![empty_class(class_name@)]) by {
            assert(root@ == empty_class(class_name@)) by {
                assert(root@.fields =~= Seq::empty());
            }
        }
        assert(descendants(generator.table(), 0) =~= indices(1, 1));
        generator
    }

    /// The classes of the table.
    pub fn classes(&self) -> (classes: &Vec<ClassDefinition>)
        ensures
            class_models(classes@) == self.table(),
    {
        &self.classes
    }

    /// The naming rule.
    pub fn naming_rule(&self) -> (rule: NamingRule)
        ensures
            rule == self.rule(),
    {
        self.naming_rule
    }

    /// Gives class `index` another name. Every field that refers to the
    /// class shows the new name from then on.
    pub fn change_class_name(&mut self, index: usize, new_name: String)
        requires
            index < old(self).table().len(),
        ensures
            final(self).table() == renamed(old(self).table(), index as int, new_name@),
            final(self).rule() == old(self).rule(),
            old(self).wf() ==> final(self).wf(),
    {
        self.classes[index].class_name = new_name;
        assert(self.table() =~= renamed(old(self).table(), index as int, new_name@));
        proof {
            if old(self).wf() {
                let t = old(self).table();
                lemma_renamed_well_formed(t, index as int, new_name@);
                assert(class_well_formed(t, 0));
                lemma_nested_same(t, self.table(), 0, t[0].children.len());
            }
        }
    }

    /// Appends an empty class and records it as found inside class `owner`.
    pub(crate) fn add_class(&mut self, owner: usize, name: String) -> (index: usize)
        requires
            owner < old(self).table().len(),
        ensures
            index == old(self).table().len(),
            final(self).table() == with_class(old(self).table(), owner as int, name@),
            final(self).rule() == old(self).rule(),
    {
        let index = self.classes.len();
        self.classes[owner].classes.push(index);
        let class = ClassDefinition { class_name: name, fields: Vec::new(), classes: Vec::new() };
        assert(class@.fields =~= Seq::empty());
        self.classes.push(class);
        assert(self.table() =~= with_class(old(self).table(), owner as int, name@));
        index
    }

    /// Appends a field to class `at`.
    pub(crate) fn add_field(&mut self, at: usize, field: Field)
        requires
            at < old(self).table().len(),
        ensures
            final(self).table() == with_field(old(self).table(), at as int, field@),
            final(self).rule() == old(self).rule(),
    {
        self.classes[at].fields.push(field);
        assert(self.classes[at as int]@.fields =~= old(self).classes[at as int]@.fields.push(
            field@,
        ));
        assert(self.table() =~= with_field(old(self).table(), at as int, field@));
    }
}

} // verus!
