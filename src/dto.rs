use vstd::prelude::*;

verus! {

/// Which index a create-vector request is for.
#[derive(Clone, Copy, Debug, PartialEq, Eq, Structural)]
pub enum VectorKind {
    Dense,
    Sparse,
    SparseIdf,
}

/// A field of a sparse create-vector request.
#[derive(Clone, Copy, Debug, PartialEq, Eq, Structural)]
pub enum SparseField {
    Id,
    Values,
    Indices,
}

/// Why a create-vector request does not decode.
#[derive(Clone, Copy, Debug, PartialEq, Eq, Structural)]
pub enum DtoError {
    /// `index_type` is neither "dense" nor "sparse".
    UnknownVariant,
    /// A field occurs twice.
    DuplicateField(SparseField),
    /// A key that the request does not have.
    UnknownField,
    /// A field that the request needs is absent.
    MissingField(SparseField),
}

/// The kind that `index_type` and the `isIDF` flag select.
pub open spec fn kind_of(index_type: Seq<char>, is_idf: bool) -> Result<VectorKind, DtoError> {
    if index_type == "dense"@ {
        Ok(VectorKind::Dense)
    } else if index_type == "sparse"@ {
        if is_idf {
            Ok(VectorKind::SparseIdf)
        } else {
            Ok(VectorKind::Sparse)
        }
    } else {
        Err(DtoError::UnknownVariant)
    }
}

/// Selects the request kind: "dense" whatever the flag, "sparse" split by
/// the flag, anything else an unknown variant.
pub fn vector_kind(index_type: &String, is_idf: bool) -> (r: Result<VectorKind, DtoError>)
    ensures
        r == kind_of(index_type@, is_idf),
{
    let dense = "dense".to_owned();
    let sparse = "sparse".to_owned();
    proof {
        reveal_strlit("dense");
        reveal_strlit("sparse");
    }
    if *index_type == dense {
        Ok(VectorKind::Dense)
    } else if *index_type == sparse {
        if is_idf {
            Ok(VectorKind::SparseIdf)
        } else {
            Ok(VectorKind::Sparse)
        }
    } else {
        Err(DtoError::UnknownVariant)
    }
}

/// The field a key names, if any.
pub open spec fn field_of(key: Seq<char>) -> Option<SparseField> {
    if key == "id"@ {
        Some(SparseField::Id)
    } else if key == "values"@ {
        Some(SparseField::Values)
    } else if key == "indices"@ {
        Some(SparseField::Indices)
    } else {
        None
    }
}

/// The fields of a sparse request seen so far while reading its keys.
#[derive(Clone, Copy, Debug, PartialEq, Eq, Structural)]
pub struct SparseFieldSet {
    pub id: bool,
    pub values: bool,
    pub indices: bool,
}

impl SparseFieldSet {
    pub open spec fn has(&self, f: SparseField) -> bool {
        match f {
            SparseField::Id => self.id,
            SparseField::Values => self.values,
            SparseField::Indices => self.indices,
        }
    }

    pub fn new() -> (r: Self)
        ensures
            !r.id && !r.values && !r.indices,
    {
        SparseFieldSet { id: false, values: false, indices: false }
    }

    /// Takes the next key of the request: an unknown key or a field seen
    /// before is refused; otherwise the field is marked as seen.
    pub fn record_key(&mut self, key: &String) -> (r: Result<SparseField, DtoError>)
        ensures
            match field_of(key@) {
                None => r == Err::<SparseField, DtoError>(DtoError::UnknownField) && *final(self) == *old(self),
                Some(f) => if old(self).has(f) {
                    r == Err::<SparseField, DtoError>(DtoError::DuplicateField(f)) && *final(self) == *old(self)
                } else {
                    r == Ok::<SparseField, DtoError>(f) && final(self).has(f) && (forall|g: SparseField|
                        g != f ==> final(self).has(g) == old(self).has(g))
                },
            },
    {
        let id = "id".to_owned();
        let values = "values".to_owned();
        let indices = "indices".to_owned();
        proof {
            reveal_strlit("id");
            reveal_strlit("values");
            reveal_strlit("indices");
        }
        if *key == id {
            if self.id {
                return Err(DtoError::DuplicateField(SparseField::Id));
            }
            self.id = true;
            Ok(SparseField::Id)
        } else if *key == values {
            if self.values {
                return Err(DtoError::DuplicateField(SparseField::Values));
            }
            self.values = true;
            Ok(SparseField::Values)
        } else if *key == indices {
            if self.indices {
                return Err(DtoError::DuplicateField(SparseField::Indices));
            }
            self.indices = true;
            Ok(SparseField::Indices)
        } else {
            Err(DtoError::UnknownField)
        }
    }

    /// After the last key: the first field never seen, in the order id,
    /// values, indices, is reported missing.
    pub fn finish(&self) -> (r: Result<(), DtoError>)
        ensures
            r == if !self.id {
                Err(DtoError::MissingField(SparseField::Id))
            } else if !self.values {
                Err(DtoError::MissingField(SparseField::Values))
            } else if !self.indices {
                Err(DtoError::MissingField(SparseField::Indices))
            } else {
                Ok(())
            },
    {
        if !self.id {
            Err(DtoError::MissingField(SparseField::Id))
        } else if !self.values {
            Err(DtoError::MissingField(SparseField::Values))
        } else if !self.indices {
            Err(DtoError::MissingField(SparseField::Indices))
        } else {
            Ok(())
        }
    }
}

} // verus!
