use vstd::prelude::*;

verus! {

/// Mathematical model of one type-size record: the type's name as a
/// sequence of characters and its size in bytes.
pub ghost struct RecordModel {
    pub name: Seq<char>,
    pub size: nat,
}

/// One record extracted from the toolchain's diagnostic output: the name
/// of a type, exactly as the toolchain printed it, and its size in bytes.
pub struct TypeSizeRecord {
    pub name: String,
    pub size: usize,
}

impl View for TypeSizeRecord {
    type V = RecordModel;

    open spec fn view(&self) -> RecordModel {
        RecordModel { name: self.name@, size: self.size as nat }
    }
}

/// The models of a vector of records, in order.
pub open spec fn models_of(rs: Seq<TypeSizeRecord>) -> Seq<RecordModel> {
    rs.map_values(|r: TypeSizeRecord| r@)
}

impl TypeSizeRecord {
    /// Builds a record from its parts.
    pub fn new(name: String, size: usize) -> (r: TypeSizeRecord)
        ensures
            r@ == (RecordModel { name: name@, size: size as nat }),
    {
        TypeSizeRecord { name, size }
    }

    /// True when the two records agree on both name and size.
    pub fn same_as(&self, other: &TypeSizeRecord) -> (b: bool)
        ensures
            b == (self@ == other@),
    {
        let names_eq = self.name == other.name;
        if names_eq && self.size == other.size {
            proof {
                assert(self@ =~= other@);
            }
            true
        } else {
            false
        }
    }
}

} // verus!
