//! Schema definition: named, typed fields with a per-field indexing policy,
//! stored flag and script mode. A schema is built once, before any indexing or
//! querying, and shared read-only thereafter.

use vstd::prelude::*;
use crate::tokenizer::ScriptMode;
use crate::chars_eq;

verus! {

/// The value type a field holds.
#[derive(Clone, Copy, PartialEq, Eq, Structural, Debug)]
pub enum FieldType {
    Text,
    UInt,
}

/// How a field is indexed. Only text is tokenized; an exact-match field is
/// indexed as one whole-value term.
#[derive(Clone, Copy, PartialEq, Eq, Structural, Debug)]
pub enum IndexPolicy {
    NotIndexed,
    Positions,
    Exact,
}

/// The errors of schema construction and field resolution.
#[derive(Clone, Copy, PartialEq, Eq, Structural, Debug)]
pub enum SchemaError {
    /// Two fields with the same name reached `build`.
    DuplicateField,
    /// A name lookup missed.
    UnknownField,
    /// A persisted schema differs from the one supplied at open.
    SchemaMismatch,
}

/// One field declaration: name, value type, indexing policy, stored flag, and
/// the script mode its text is tokenized with. All of it is fixed for the
/// lifetime of an index.
pub struct Field {
    pub name: Vec<char>,
    pub ftype: FieldType,
    pub policy: IndexPolicy,
    pub stored: bool,
    pub mode: ScriptMode,
}

/// The mathematical content of a field declaration.
pub ghost struct FieldModel {
    pub name: Seq<char>,
    pub ftype: FieldType,
    pub policy: IndexPolicy,
    pub stored: bool,
    pub mode: ScriptMode,
}

impl Field {
    pub open spec fn model(self) -> FieldModel {
        FieldModel {
            name: self.name@,
            ftype: self.ftype,
            policy: self.policy,
            stored: self.stored,
            mode: self.mode,
        }
    }
}

/// The field declarations of a schema, in declaration order.
pub open spec fn field_models(fields: Seq<Field>) -> Seq<FieldModel> {
    fields.map_values(|f: Field| f.model())
}

/// No two fields share a name.
pub open spec fn distinct_names(fs: Seq<FieldModel>) -> bool {
    forall|i: int, j: int| 0 <= i < j < fs.len() ==> fs[i].name != fs[j].name
}

/// Whether some field carries this name.
pub open spec fn has_field(fs: Seq<FieldModel>, name: Seq<char>) -> bool {
    exists|i: int| 0 <= i < fs.len() && fs[i].name == name
}

/// The first field carrying this name, if any.
pub open spec fn find_field(fs: Seq<FieldModel>, name: Seq<char>) -> Option<int>
    decreases fs.len(),
{
    if fs.len() == 0 {
        None
    } else if fs[0].name == name {
        Some(0)
    } else {
        match find_field(fs.drop_first(), name) {
            Some(i) => Some(i + 1),
            None => None,
        }
    }
}

pub proof fn lemma_find_field_at(fs: Seq<FieldModel>, name: Seq<char>, i: int)
    requires
        0 <= i < fs.len(),
        fs[i].name == name,
        forall|j: int| 0 <= j < i ==> fs[j].name != name,
    ensures
        find_field(fs, name) == Some(i),
    decreases i,
{
    if i == 0 {
    } else {
        assert(fs.drop_first()[i - 1] == fs[i]);
        assert(forall|j: int| 0 <= j < i - 1 ==> fs.drop_first()[j] == fs[j + 1]);
        lemma_find_field_at(fs.drop_first(), name, i - 1);
    }
}

pub proof fn lemma_find_field_none(fs: Seq<FieldModel>, name: Seq<char>)
    requires
        forall|j: int| 0 <= j < fs.len() ==> fs[j].name != name,
    ensures
        find_field(fs, name) == None::<int>,
    decreases fs.len(),
{
    if fs.len() > 0 {
        assert(forall|j: int| 0 <= j < fs.len() - 1 ==> fs.drop_first()[j] == fs[j + 1]);
        lemma_find_field_none(fs.drop_first(), name);
    }
}

/// Properties of `find_field` a caller may need: the found index carries the
/// name, and a miss means no field carries it.
pub proof fn lemma_find_field_spec(fs: Seq<FieldModel>, name: Seq<char>)
    ensures
        match find_field(fs, name) {
            Some(i) => 0 <= i < fs.len() && fs[i].name == name,
            None => !has_field(fs, name),
        },
    decreases fs.len(),
{
    if fs.len() > 0 {
        lemma_find_field_spec(fs.drop_first(), name);
        if fs[0].name != name && find_field(fs.drop_first(), name) is None {
            assert forall|i: int| 0 <= i < fs.len() implies fs[i].name != name by {
                if i > 0 {
                    assert(fs.drop_first()[i - 1] == fs[i]);
                }
            }
        }
    }
}

/// An ordered collection of field declarations, sealed by `build`.
pub struct SchemaBuilder {
    pub fields: Vec<Field>,
}

/// A sealed schema: the single source of truth for field resolution. Built by
/// `SchemaBuilder::build`, which guarantees distinct field names.
pub struct Schema {
    pub fields: Vec<Field>,
}

impl Schema {
    /// The field declarations, in declaration order.
    pub open spec fn spec_fields(self) -> Seq<FieldModel> {
        field_models(self.fields@)
    }

    /// A schema is well formed when its field names are distinct; `build`
    /// establishes this and nothing mutates a schema afterwards.
    pub open spec fn wf(self) -> bool {
        distinct_names(self.spec_fields())
    }

    /// How many fields the schema declares.
    pub fn len(&self) -> (n: usize)
        ensures
            n == self.spec_fields().len(),
    {
        self.fields.len()
    }

    /// Resolves a field name to its index; a lookup that misses fails with
    /// `UnknownField`.
    pub fn get_field(&self, name: &Vec<char>) -> (r: Result<usize, SchemaError>)
        ensures
            match r {
                Ok(i) => i < self.spec_fields().len() && self.spec_fields()[i as int].name == name@
                    && (forall|j: int| 0 <= j < i ==> self.spec_fields()[j].name != name@),
                Err(e) => e == SchemaError::UnknownField && !has_field(self.spec_fields(), name@),
            },
            r is Ok <==> has_field(self.spec_fields(), name@),
    {
        proof {
            lemma_find_field_spec(self.spec_fields(), name@);
        }
        let mut i: usize = 0;
        while i < self.fields.len()
            invariant
                i <= self.fields@.len(),
                forall|j: int| 0 <= j < i ==> self.spec_fields()[j].name != name@,
            decreases self.fields@.len() - i,
        {
            if chars_eq(&self.fields[i].name, name) {
                proof {
                    lemma_find_field_at(self.spec_fields(), name@, i as int);
                }
                return Ok(i);
            }
            i = i + 1;
        }
        proof {
            lemma_find_field_none(self.spec_fields(), name@);
        }
        Err(SchemaError::UnknownField)
    }
}

impl SchemaBuilder {
    /// An empty builder.
    pub fn new() -> (b: SchemaBuilder)
        ensures
            b.fields@.len() == 0,
    {
        SchemaBuilder { fields: Vec::new() }
    }

    /// Declares one more field. Duplicate names are not rejected here but at
    /// `build` time.
    pub fn add_field(&mut self, f: Field)
        ensures
            final(self).fields@ == old(self).fields@.push(f),
    {
        self.fields.push(f);
    }

    /// Seals the builder. Fails with `DuplicateField` exactly when two
    /// declared fields share a name; otherwise the schema carries the declared
    /// fields unchanged, in declaration order.
    pub fn build(self) -> (r: Result<Schema, SchemaError>)
        ensures
            match r {
                Ok(s) => s.spec_fields() == field_models(self.fields@) && s.wf(),
                Err(e) => e == SchemaError::DuplicateField && !distinct_names(
                    field_models(self.fields@),
                ),
            },
    {
        let ghost fs = field_models(self.fields@);
        let n = self.fields.len();
        let mut i: usize = 0;
        while i < n
            invariant
                i <= n,
                n == self.fields@.len(),
                forall|a: int, b: int| 0 <= a < b < n && a < i ==> fs[a].name != fs[b].name,
            decreases n - i,
        {
            let mut j: usize = i + 1;
            while j < n
                invariant
                    i < j <= n,
                    n == self.fields@.len(),
                    forall|b: int| i < b < j ==> fs[i as int].name != fs[b].name,
                decreases n - j,
            {
                if chars_eq(&self.fields[i].name, &self.fields[j].name) {
                    assert(fs[i as int].name == fs[j as int].name);
                    assert(!distinct_names(fs));
                    return Err(SchemaError::DuplicateField);
                }
                j = j + 1;
            }
            i = i + 1;
        }
        Ok(Schema { fields: self.fields })
    }
}

} // verus!
