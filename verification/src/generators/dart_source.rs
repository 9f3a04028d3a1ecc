//! Dart source text for the classes of a table.
use vstd::prelude::*;
use vstd::string::*;
use crate::generators::{Case, ClassError, ClassGenerator, NamingRule, cased_text, to_case};
use crate::generators::class_builder::{document_defect, document_read};
use crate::generators::class_model::{
    ClassModel, FieldModel, class_well_formed, lemma_refs_widen, type_refs_within,
};
use crate::generators::class_namer::finalized;
use crate::generators::dart_generator::{
    ClassDefinition, DartClassGenerator, Field, FieldType, class_models,
};
use crate::json::{Json, JsonValue};

verus! {

/// The parts, with the separator between each two neighbours.
pub open spec fn joined(parts: Seq<Seq<char>>, sep: Seq<char>) -> Seq<char>
    decreases parts.len(),
{
    if parts.len() == 0 {
        Seq::empty()
    } else if parts.len() == 1 {
        parts[0]
    } else {
        joined(parts.drop_last(), sep) + sep + parts.last()
    }
}

/// The text with a backslash before every dollar sign, as a Dart string
/// literal needs it.
pub open spec fn escaped(s: Seq<char>) -> Seq<char>
    decreases s.len(),
{
    if s.len() == 0 {
        Seq::empty()
    } else if s.last() == '$' {
        escaped(s.drop_last()) + "\\$"@
    } else {
        escaped(s.drop_last()).push(s.last())
    }
}

/// The Dart type that a field type is written as. A class is written by
/// its current name.
pub open spec fn type_text(t: Seq<ClassModel>, ty: FieldType) -> Seq<char>
    decreases ty,
{
    match ty {
        FieldType::Dynamic => "dynamic"@,
        FieldType::Boolean => "bool"@,
        FieldType::Integer => "int"@,
        FieldType::Double => "double"@,
        FieldType::Text => "String"@,
        FieldType::List(inner) => "List<"@ + type_text(t, *inner) + ">"@,
        FieldType::Class(c) => t[c as int].name,
    }
}

/// The declaration of a field, after the annotation that carries its
/// JSON key where it has one.
pub open spec fn field_text(t: Seq<ClassModel>, f: FieldModel) -> Seq<char> {
    let annotation = match f.wire_name {
        Some(name) => "    @JsonKey(name: \""@ + escaped(name) + "\")\n"@,
        None => Seq::empty(),
    };
    annotation + "    final "@ + type_text(t, f.field_type) + " "@ + f.identifier + ";"@
}

/// The constructor argument for a field.
pub open spec fn argument_text(f: FieldModel) -> Seq<char> {
    "        required this."@ + f.identifier + ","@
}

/// The argument of the `JsonSerializable` annotation for a naming rule.
pub open spec fn rule_text(rule: NamingRule) -> Seq<char> {
    match rule {
        NamingRule::NoRule => Seq::empty(),
        NamingRule::Snake => "fieldRename: FieldRename.snake"@,
        NamingRule::Pascal => "fieldRename: FieldRename.pascal"@,
        NamingRule::Kebab => "fieldRename: FieldRename.kebab"@,
    }
}

/// The declarations of the fields, one part each.
pub open spec fn field_lines(t: Seq<ClassModel>, fields: Seq<FieldModel>) -> Seq<Seq<char>> {
    fields.map_values(|f: FieldModel| field_text(t, f))
}

/// The constructor arguments for the fields, one part each.
pub open spec fn argument_lines(fields: Seq<FieldModel>) -> Seq<Seq<char>> {
    fields.map_values(|f: FieldModel| argument_text(f))
}

/// The Dart source of class `i`: the annotation, the fields, a constructor
/// that requires every field, and the two conversions from and to JSON.
pub open spec fn class_text(t: Seq<ClassModel>, rule: NamingRule, i: int) -> Seq<char> {
    let name = t[i].name;
    let body = joined(field_lines(t, t[i].fields), "\n"@);
    let arguments = joined(argument_lines(t[i].fields), "\n"@);
    "@JsonSerializable("@ + rule_text(rule) + ")\nclass "@ + name + " {\n"@ + body + "\n    "@
        + name + "({\n"@ + arguments + "\n    });\n\n    factory "@ + name
        + ".fromJson(Map<String, dynamic> json) => _$"@ + name
        + "FromJson(json);\n\n    Map<String, dynamic> toJson() => _$"@ + name
        + "ToJson(this);\n}"@
}

/// The Dart source of each of the given classes, one part each.
pub open spec fn class_texts(t: Seq<ClassModel>, rule: NamingRule, kept: Seq<usize>) -> Seq<
    Seq<char>,
> {
    kept.map_values(|c: usize| class_text(t, rule, c as int))
}

/// The Dart library generated from a table: the import of the annotation
/// package, the `part` directive named after the root class in snake
/// case, and the source of every class that the walk over the table
/// keeps, under its final name, root first.
pub open spec fn document_text(t: Seq<ClassModel>, rule: NamingRule) -> Seq<char> {
    let w = finalized(t);
    "import 'package:json_annotation/json_annotation.dart';\n\npart '"@ + cased_text(
        t[0].name,
        Case::Snake,
    ) + ".g.dart';\n\n"@ + joined(class_texts(w.classes, rule, w.kept), "\n\n"@) + "\n"@
}

/// Puts a backslash before every dollar sign.
pub fn escape_dollars(s: &str) -> (out: String)
    ensures
        out@ == escaped(s@),
{
    let mut out = String::new();
    assert(s@.take(0) =~= Seq::<char>::empty());
    for c in it: s.chars()
        invariant
            it.seq() == s@,
            out@ == escaped(s@.take(it.index() as int)),
    {
        let ghost i = it.index() as int;
        assert(s@.take(i + 1).drop_last() =~= s@.take(i));
        assert(s@.take(i + 1).last() == c);
        if c == '$' {
            out.append("\\$");
        } else {
            out.push(c);
        }
    }
    assert(s@.take(s@.len() as int) =~= s@);
    out
}

impl FieldType {
    /// The Dart type that the field type is written as.
    pub fn get_type(&self, classes: &Vec<ClassDefinition>) -> (out: String)
        requires
            type_refs_within(*self, -1, classes.len() as int),
        ensures
            out@ == type_text(class_models(classes@), *self),
        decreases self,
    {
        match self {
            FieldType::Dynamic => String::from_str("dynamic"),
            FieldType::Boolean => String::from_str("bool"),
            FieldType::Integer => String::from_str("int"),
            FieldType::Double => String::from_str("double"),
            FieldType::Text => String::from_str("String"),
            FieldType::List(inner) => {
                let mut out = String::from_str("List<");
                let element = inner.get_type(classes);
                out.append(element.as_str());
                out.append(">");
                out
            },
            FieldType::Class(c) => classes[*c].class_name.clone(),
        }
    }
}

/// The declaration of a field.
pub fn field_source(classes: &Vec<ClassDefinition>, field: &Field) -> (out: String)
    requires
        type_refs_within(field.field_type, -1, classes.len() as int),
    ensures
        out@ == field_text(class_models(classes@), field@),
{
    let mut out = String::new();
    match &field.wire_name {
        Some(name) => {
            out.append("    @JsonKey(name: \"");
            let literal = escape_dollars(name.as_str());
            out.append(literal.as_str());
            out.append("\")\n");
            assert(out@ =~= "    @JsonKey(name: \""@ + escaped(name@) + "\")\n"@);
        },
        None => {},
    }
    out.append("    final ");
    let ty = field.field_type.get_type(classes);
    out.append(ty.as_str());
    out.append(" ");
    out.append(field.identifier.as_str());
    out.append(";");
    out
}

/// The constructor argument for a field.
pub fn argument_source(field: &Field) -> (out: String)
    ensures
        out@ == argument_text(field@),
{
    let mut out = String::from_str("        required this.");
    out.append(field.identifier.as_str());
    out.append(",");
    out
}

impl DartClassGenerator {
    /// The Dart source of class `index`.
    pub fn get_result(&self, index: usize) -> (out: String)
        requires
            self.wf(),
            index < self.table().len(),
        ensures
            out@ == class_text(self.table(), self.rule(), index as int),
    {
        let classes = self.classes();
        let class = &classes[index];
        let ghost t = self.table();
        let ghost fields = t[index as int].fields;
        assert(class@ == t[index as int]);
        assert(class_well_formed(t, index as int));

        let mut body = String::new();
        let mut arguments = String::new();
        let mut k: usize = 0;
        while k < class.fields.len()
            invariant
                k <= class.fields.len(),
                index < t.len(),
                class@ == t[index as int],
                fields == t[index as int].fields,
                t == class_models(classes@),
                class_well_formed(t, index as int),
                body@ == joined(field_lines(t, fields).take(k as int), "\n"@),
                arguments@ == joined(argument_lines(fields).take(k as int), "\n"@),
            decreases class.fields.len() - k,
        {
            let field = &class.fields[k];
            proof {
                assert(field@ == fields[k as int]);
                assert(field.field_type == t[index as int].fields[k as int].field_type);
                let len = t.len() as int;
                lemma_refs_widen(field.field_type, index as int, len, -1, len);
                let lines = field_lines(t, fields);
                let args = argument_lines(fields);
                assert(lines.take(k + 1).drop_last() =~= lines.take(k as int));
                assert(args.take(k + 1).drop_last() =~= args.take(k as int));
                assert(lines.take(k + 1).last() == field_text(t, field@));
                assert(args.take(k + 1).last() == argument_text(field@));
            }
            if k > 0 {
                body.append("\n");
                arguments.append("\n");
            }
            let line = field_source(classes, field);
            body.append(line.as_str());
            let argument = argument_source(field);
            arguments.append(argument.as_str());
            k += 1;
            assert(body@ =~= joined(field_lines(t, fields).take(k as int), "\n"@));
            assert(arguments@ =~= joined(argument_lines(fields).take(k as int), "\n"@));
        }
        proof {
            assert(field_lines(t, fields).take(k as int) =~= field_lines(t, fields));
            assert(argument_lines(fields).take(k as int) =~= argument_lines(fields));
        }

        let name = class.class_name.as_str();
        let mut out = String::from_str("@JsonSerializable(");
        match self.naming_rule() {
            NamingRule::NoRule => {},
            NamingRule::Snake => out.append("fieldRename: FieldRename.snake"),
            NamingRule::Pascal => out.append("fieldRename: FieldRename.pascal"),
            NamingRule::Kebab => out.append("fieldRename: FieldRename.kebab"),
        }
        assert(out@ =~= "@JsonSerializable("@ + rule_text(self.rule()));
        out.append(")\nclass ");
        out.append(name);
        out.append(" {\n");
        out.append(body.as_str());
        out.append("\n    ");
        out.append(name);
        out.append("({\n");
        out.append(arguments.as_str());
        out.append("\n    });\n\n    factory ");
        out.append(name);
        out.append(".fromJson(Map<String, dynamic> json) => _$");
        out.append(name);
        out.append("FromJson(json);\n\n    Map<String, dynamic> toJson() => _$");
        out.append(name);
        out.append("ToJson(this);\n}");
        out
    }
}

impl DartClassGenerator {
    /// The Dart library with every class to emit, each once and under its
    /// final name.
    pub fn get_full_result(self) -> (out: String)
        requires
            self.wf(),
        ensures
            out@ == document_text(self.table(), self.rule()),
    {
        let ghost t0 = self.table();
        let ghost rule = self.rule();
        let mut generator = self;
        let file_name = to_case(generator.classes()[0].class_name.as_str(), Case::Snake);
        let kept = generator.finalize();
        let ghost t = generator.table();
        let ghost parts = class_texts(t, rule, kept@);

        let mut classes = String::new();
        let mut k: usize = 0;
        while k < kept.len()
            invariant
                k <= kept.len(),
                generator.wf(),
                generator.table() == t,
                generator.rule() == rule,
                parts == class_texts(t, rule, kept@),
                forall|m: int| 0 <= m < kept.len() ==> #[trigger] kept[m] < t.len(),
                classes@ == joined(parts.take(k as int), "\n\n"@),
            decreases kept.len() - k,
        {
            proof {
                assert(parts.take(k + 1).drop_last() =~= parts.take(k as int));
                assert(parts.take(k + 1).last() == class_text(t, rule, kept[k as int] as int));
            }
            if k > 0 {
                classes.append("\n\n");
            }
            let class = generator.get_result(kept[k]);
            classes.append(class.as_str());
            k += 1;
            assert(classes@ =~= joined(parts.take(k as int), "\n\n"@));
        }
        assert(parts.take(k as int) =~= parts);

        let mut out = String::from_str(
            "import 'package:json_annotation/json_annotation.dart';\n\npart '",
        );
        out.append(file_name.as_str());
        out.append(".g.dart';\n\n");
        out.append(classes.as_str());
        out.append("\n");
        out
    }
}

impl ClassGenerator for DartClassGenerator {
    open spec fn ready(&self) -> bool {
        self.wf()
    }

    open spec fn refusal(&self, json: Json) -> Option<ClassError> {
        document_defect(self.table()[0].name, json)
    }

    open spec fn type_read(&self, json: Json) -> FieldType {
        document_read(self.table(), self.rule(), json).1
    }

    open spec fn reads(&self, json: Json, after: &Self) -> bool {
        &&& after.table() == document_read(self.table(), self.rule(), json).0
        &&& after.rule() == self.rule()
    }

    open spec fn source(&self) -> Seq<char> {
        document_text(self.table(), self.rule())
    }

    fn parse_value(&mut self, value: &JsonValue) -> (out: Result<FieldType, ClassError>) {
        DartClassGenerator::parse_value(self, value)
    }

    fn parse_array(&mut self, value: &Vec<JsonValue>) -> (out: Result<FieldType, ClassError>) {
        DartClassGenerator::parse_array(self, value)
    }

    fn parse_object(&mut self, obj: &Vec<(String, JsonValue)>) -> (out: Result<
        FieldType,
        ClassError,
    >) {
        DartClassGenerator::parse_object(self, obj)
    }

    fn get_full_result(self) -> (out: String) {
        DartClassGenerator::get_full_result(self)
    }
}

} // verus!
