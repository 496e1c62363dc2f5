use vstd::prelude::*;

verus! {

/// A stored record: an identifier, an embedding and opaque metadata.
///
/// Each embedding component is the bit pattern of an IEEE-754
/// single-precision value; the store never interprets the components, it
/// only checks their count against the configured dimension. Metadata is a
/// list of key/value pairs that the store keeps and returns unchanged.
#[derive(Debug, Clone, PartialEq, Eq)]
pub struct Vector {
    pub id: String,
    pub embedding: Vec<u32>,
    pub metadata: Vec<(String, String)>,
}

/// The mathematical model of a stored record.
pub ghost struct RecModel {
    pub id: Seq<char>,
    pub embedding: Seq<u32>,
    pub metadata: Seq<(Seq<char>, Seq<char>)>,
}

/// The model of a metadata list: each pair as the views of its strings.
pub open spec fn md_view(md: Seq<(String, String)>) -> Seq<(Seq<char>, Seq<char>)> {
    md.map_values(|p: (String, String)| (p.0@, p.1@))
}

impl View for Vector {
    type V = RecModel;

    open spec fn view(&self) -> RecModel {
        RecModel { id: self.id@, embedding: self.embedding@, metadata: md_view(self.metadata@) }
    }
}

} // verus!
