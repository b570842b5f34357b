//! Deterministic ownership of several independently fitted scalar fields,
//! each under a stable caller-controlled identifier.
//!
//! The project owns no assembly, solver or evaluation mathematics: it
//! retains fields in insertion order, validates that identifiers are unique,
//! and resolves an identifier to its field.
use vstd::prelude::*;

verus! {

/// Stable caller-controlled identifier for one scalar field in a project.
#[derive(Clone, Copy, Debug, PartialEq, Eq, Structural, Hash, PartialOrd, Ord)]
pub struct FieldId(u64);

impl FieldId {
    /// The caller-controlled value.
    pub closed spec fn spec_identifier(self) -> u64 {
        self.0
    }

    /// Constructs an identifier from a caller-controlled stable value.
    pub fn new(identifier: u64) -> (id: Self)
        ensures
            id.spec_identifier() == identifier,
    {
        FieldId(identifier)
    }

    /// Returns the caller-controlled value.
    pub fn identifier(self) -> (identifier: u64)
        ensures
            identifier == self.spec_identifier(),
    {
        self.0
    }

    /// Two identifiers are equal exactly when their values are.
    pub proof fn lemma_identifier_injective(self, other: Self)
        ensures
            (self == other) <==> (self.spec_identifier() == other.spec_identifier()),
    {
    }
}

/// One identified field owned by a [`GeoProject`].
pub struct ProjectField<F> {
    /// Stable identifier.
    pub id: FieldId,
    /// The independently fitted field.
    pub field: F,
}

impl<F> ProjectField<F> {
    /// Associates a stable project identifier with an independently fitted field.
    pub fn new(id: FieldId, field: F) -> (entry: Self)
        ensures
            entry.id == id,
            entry.field == field,
    {
        ProjectField { id, field }
    }

    /// Returns the stable field identifier.
    pub fn id(&self) -> (id: FieldId)
        ensures
            id == self.id,
    {
        self.id
    }

    /// Borrows the independently fitted field.
    pub fn field(&self) -> (field: &F)
        ensures
            *field == self.field,
    {
        &self.field
    }

    /// Consumes the entry and returns its identifier and fitted field.
    pub fn into_parts(self) -> (parts: (FieldId, F))
        ensures
            parts.0 == self.id,
            parts.1 == self.field,
    {
        (self.id, self.field)
    }
}

/// Project allocation category retained by structured construction failures.
#[derive(Clone, Copy, Debug, PartialEq, Eq, Structural, Hash)]
pub enum GeoProjectStorage {
    /// Deterministic project-field entries.
    Fields,
}

/// Structured construction or reference-resolution failure for a project.
#[derive(Clone, Copy, Debug, PartialEq, Eq, Structural)]
pub enum GeoProjectError {
    /// A project cannot own zero scalar fields.
    EmptyFields,
    /// Two entries supplied the same stable field identifier.
    DuplicateFieldId {
        /// Repeated caller-controlled identifier.
        field_id: FieldId,
        /// Zero-based index of the first entry.
        first_index: usize,
        /// Zero-based index of the repeated entry.
        duplicate_index: usize,
    },
    /// A typed reference requested an identifier not owned by the project.
    UnknownReferenceField {
        /// Missing caller-controlled identifier.
        field_id: FieldId,
    },
    /// Checked project storage allocation failed.
    AllocationFailed {
        /// Storage category that could not be allocated.
        storage: GeoProjectStorage,
        /// Requested minimum element count.
        requested: usize,
    },
}

/// The identifiers of a sequence of entries, in order.
pub open spec fn entry_ids<F>(entries: Seq<ProjectField<F>>) -> Seq<FieldId> {
    entries.map_values(|entry: ProjectField<F>| entry.id)
}

/// Whether no identifier occurs twice.
pub open spec fn ids_unique(ids: Seq<FieldId>) -> bool {
    forall|i: int, j: int| 0 <= i < j < ids.len() ==> ids[i] != ids[j]
}

/// Whether `(first, duplicate)` is the first repetition: `duplicate` is the
/// smallest index that repeats an earlier identifier and `first` is the
/// earliest index holding that identifier.
pub open spec fn first_repetition(ids: Seq<FieldId>, first: int, duplicate: int) -> bool {
    &&& 0 <= first < duplicate < ids.len()
    &&& ids[first] == ids[duplicate]
    &&& ids_unique(ids.take(duplicate))
    &&& forall|i: int| 0 <= i < first ==> ids[i] != ids[duplicate]
}

/// Immutable deterministic owner of independent fitted scalar fields, in
/// the caller's insertion order and with unique identifiers.
pub struct GeoProject<F> {
    fields: Vec<ProjectField<F>>,
}

impl<F> GeoProject<F> {
    #[verifier::type_invariant]
    spec fn inv(self) -> bool {
        self.fields@.len() > 0 && ids_unique(entry_ids(self.fields@))
    }

    /// The entries in insertion order.
    pub closed spec fn spec_fields(self) -> Seq<ProjectField<F>> {
        self.fields@
    }

    /// Validates and owns one or more independently fitted scalar fields.
    ///
    /// The first repeated identifier is reported as `DuplicateFieldId` with
    /// the index of its first occurrence; a project without fields is
    /// rejected with `EmptyFields`.
    pub fn try_new(fields: Vec<ProjectField<F>>) -> (result: Result<Self, GeoProjectError>)
        ensures
            fields@.len() == 0 ==> result == Err::<Self, GeoProjectError>(
                GeoProjectError::EmptyFields,
            ),
            fields@.len() > 0 && ids_unique(entry_ids(fields@)) ==> (result matches Ok(project)
                && project.spec_fields() == fields@),
            !ids_unique(entry_ids(fields@)) ==> (result matches Err(
                GeoProjectError::DuplicateFieldId { field_id, first_index, duplicate_index },
            ) && first_repetition(entry_ids(fields@), first_index as int, duplicate_index as int)
                && field_id == fields@[duplicate_index as int].id),
    {
        let ghost ids = entry_ids(fields@);
        let mut index: usize = 0;
        while index < fields.len()
            invariant
                ids == entry_ids(fields@),
                index <= fields@.len(),
                ids_unique(ids.take(index as int)),
            decreases fields@.len() - index,
        {
            let mut earlier: usize = 0;
            while earlier < index
                invariant
                    ids == entry_ids(fields@),
                    index < fields@.len(),
                    earlier <= index,
                    ids_unique(ids.take(index as int)),
                    forall|i: int| 0 <= i < earlier ==> ids[i] != ids[index as int],
                decreases index - earlier,
            {
                if fields[earlier].id == fields[index].id {
                    let field_id = fields[index].id;
                    proof {
                        assert(ids[earlier as int] == ids[index as int]);
                    }
                    return Err(
                        GeoProjectError::DuplicateFieldId {
                            field_id,
                            first_index: earlier,
                            duplicate_index: index,
                        },
                    );
                }
                earlier = earlier + 1;
            }
            proof {
                let grown = ids.take(index + 1);
                assert forall|i: int, j: int|
                    0 <= i < j < index + 1 implies #[trigger] grown[i] != #[trigger] grown[j] by {
                    if j < index {
                        assert(ids.take(index as int)[i] == ids[i]);
                        assert(ids.take(index as int)[j] == ids[j]);
                    }
                }
            }
            index = index + 1;
        }
        if fields.len() == 0 {
            return Err(GeoProjectError::EmptyFields);
        }
        proof {
            assert(ids.take(index as int) =~= ids);
        }
        Ok(GeoProject { fields })
    }

    /// Returns the number of independently owned fields.
    pub fn len(&self) -> (count: usize)
        ensures
            count == self.spec_fields().len(),
            count > 0,
    {
        proof {
            use_type_invariant(self);
        }
        self.fields.len()
    }

    /// Reports whether the project contains no fields; a constructed project
    /// always returns `false`.
    pub fn is_empty(&self) -> (empty: bool)
        ensures
            empty == (self.spec_fields().len() == 0),
            !empty,
    {
        proof {
            use_type_invariant(self);
        }
        self.fields.len() == 0
    }

    /// Borrows project entries in deterministic insertion order; there is
    /// at least one, and no identifier occurs twice.
    pub fn fields(&self) -> (fields: &[ProjectField<F>])
        ensures
            fields@ == self.spec_fields(),
            fields@.len() > 0,
            ids_unique(entry_ids(fields@)),
    {
        proof {
            use_type_invariant(self);
        }
        self.fields.as_slice()
    }

    /// Borrows the entry with the given identifier, or returns `None` when
    /// no entry has it.
    pub fn entry(&self, field_id: FieldId) -> (entry: Option<&ProjectField<F>>)
        ensures
            entry is None <==> !entry_ids(self.spec_fields()).contains(field_id),
            entry matches Some(found) ==> exists|index: int|
                0 <= index < self.spec_fields().len() && self.spec_fields()[index] == *found
                    && found.id == field_id,
    {
        let mut index: usize = 0;
        while index < self.fields.len()
            invariant
                index <= self.fields@.len(),
                forall|i: int| 0 <= i < index ==> self.fields@[i].id != field_id,
            decreases self.fields@.len() - index,
        {
            if self.fields[index].id == field_id {
                proof {
                    assert(entry_ids(self.fields@)[index as int] == field_id);
                    assert(self.spec_fields()[index as int] == self.fields@[index as int]);
                }
                return Some(&self.fields[index]);
            }
            index = index + 1;
        }
        proof {
            let ids = entry_ids(self.fields@);
            if ids.contains(field_id) {
                let i = choose|i: int| 0 <= i < ids.len() && ids[i] == field_id;
                assert(self.fields@[i].id == field_id);
            }
        }
        None
    }

    /// Borrows the independently fitted field with the given identifier.
    pub fn field(&self, field_id: FieldId) -> (field: Option<&F>)
        ensures
            field is None <==> !entry_ids(self.spec_fields()).contains(field_id),
            field matches Some(found) ==> exists|index: int|
                0 <= index < self.spec_fields().len() && self.spec_fields()[index].field
                    == *found && self.spec_fields()[index].id == field_id,
    {
        match self.entry(field_id) {
            Some(entry) => Some(&entry.field),
            None => None,
        }
    }

    /// Resolves one identifier to a typed reference input; fails with
    /// `UnknownReferenceField` exactly when no entry has the identifier.
    pub fn try_reference_input(&self, field_id: FieldId) -> (result: Result<
        ReferenceFieldInput<'_, F>,
        GeoProjectError,
    >)
        ensures
            !entry_ids(self.spec_fields()).contains(field_id) ==> result == Err::<
                ReferenceFieldInput<'_, F>,
                GeoProjectError,
            >(GeoProjectError::UnknownReferenceField { field_id }),
            result matches Ok(input) ==> input.field_id == field_id && exists|index: int|
                0 <= index < self.spec_fields().len() && self.spec_fields()[index].field
                    == *input.field && self.spec_fields()[index].id == field_id,
            entry_ids(self.spec_fields()).contains(field_id) ==> result is Ok,
    {
        match self.field(field_id) {
            Some(field) => Ok(ReferenceFieldInput { field_id, field }),
            None => Err(GeoProjectError::UnknownReferenceField { field_id }),
        }
    }

    /// Consumes the project and returns entries in deterministic insertion order.
    pub fn into_fields(self) -> (fields: Vec<ProjectField<F>>)
        ensures
            fields@ == self.spec_fields(),
    {
        self.fields
    }
}

/// Validated borrowed view of one project field for reference-controlled
/// inputs: an identity and delegation boundary only.
pub struct ReferenceFieldInput<'a, F> {
    /// The resolved stable identifier.
    pub field_id: FieldId,
    /// The resolved immutable field.
    pub field: &'a F,
}

impl<'a, F> ReferenceFieldInput<'a, F> {
    /// Returns the resolved stable field identifier.
    pub fn field_id(&self) -> (id: FieldId)
        ensures
            id == self.field_id,
    {
        self.field_id
    }

    /// Borrows the resolved immutable fitted field.
    pub fn field(&self) -> (field: &'a F)
        ensures
            field == self.field,
    {
        self.field
    }
}

} // verus!
