//! The node types of the heterogeneous graphs and typed node identifiers.
use vstd::prelude::*;

verus! {

/// A node type of a heterogeneous graph. Its name is the one that the graph's
/// edge files use; its code tells the node types of one graph apart.
pub trait NodeLayer: Copy {
    /// The code of this node type.
    spec fn code_spec(&self) -> u32;

    /// The name of this node type.
    spec fn name_spec(&self) -> Seq<char>;

    fn code(&self) -> (c: u32)
        ensures
            c == self.code_spec(),
    ;

    fn name(&self) -> (s: String)
        ensures
            s@ == self.name_spec(),
    ;

    /// Different node types have different codes.
    proof fn lemma_codes_differ(a: Self, b: Self)
        ensures
            a.code_spec() == b.code_spec() ==> a == b,
    ;
}

/// Node types of the DBLP graph.
#[derive(Debug, Clone, Copy, PartialEq, Eq, Hash)]
pub enum DblpNodeType {
    Author,
    Paper,
    Conference,
    Term,
}

/// Node types of the IMDB graph.
#[derive(Debug, Clone, Copy, PartialEq, Eq, Hash)]
pub enum ImdbNodeType {
    Movie,
    Director,
    Actor,
}

/// Node types of the Last.fm graph.
#[derive(Debug, Clone, Copy, PartialEq, Eq, Hash)]
pub enum LastFmNodeType {
    User,
    Artist,
    Tag,
}

/// Node types of the OGB-MAG graph.
#[derive(Debug, Clone, Copy, PartialEq, Eq, Hash)]
pub enum OgbMagNodeType {
    Author,
    Institution,
    FieldOfStudy,
    Paper,
}

impl NodeLayer for DblpNodeType {
    proof fn lemma_codes_differ(a: Self, b: Self) {
    }

    open spec fn code_spec(&self) -> u32 {
        match self {
            DblpNodeType::Author => 0,
            DblpNodeType::Paper => 1,
            DblpNodeType::Conference => 2,
            DblpNodeType::Term => 3,
        }
    }

    open spec fn name_spec(&self) -> Seq<char> {
        match self {
            DblpNodeType::Author => "author"@,
            DblpNodeType::Paper => "paper"@,
            DblpNodeType::Conference => "conference"@,
            DblpNodeType::Term => "term"@,
        }
    }

    fn code(&self) -> (c: u32) {
        match self {
            DblpNodeType::Author => 0,
            DblpNodeType::Paper => 1,
            DblpNodeType::Conference => 2,
            DblpNodeType::Term => 3,
        }
    }

    fn name(&self) -> (s: String) {
        match self {
            DblpNodeType::Author => String::from_str("author"),
            DblpNodeType::Paper => String::from_str("paper"),
            DblpNodeType::Conference => String::from_str("conference"),
            DblpNodeType::Term => String::from_str("term"),
        }
    }
}

impl NodeLayer for ImdbNodeType {
    proof fn lemma_codes_differ(a: Self, b: Self) {
    }

    open spec fn code_spec(&self) -> u32 {
        match self {
            ImdbNodeType::Movie => 0,
            ImdbNodeType::Director => 1,
            ImdbNodeType::Actor => 2,
        }
    }

    open spec fn name_spec(&self) -> Seq<char> {
        match self {
            ImdbNodeType::Movie => "movie"@,
            ImdbNodeType::Director => "director"@,
            ImdbNodeType::Actor => "actor"@,
        }
    }

    fn code(&self) -> (c: u32) {
        match self {
            ImdbNodeType::Movie => 0,
            ImdbNodeType::Director => 1,
            ImdbNodeType::Actor => 2,
        }
    }

    fn name(&self) -> (s: String) {
        match self {
            ImdbNodeType::Movie => String::from_str("movie"),
            ImdbNodeType::Director => String::from_str("director"),
            ImdbNodeType::Actor => String::from_str("actor"),
        }
    }
}

impl NodeLayer for LastFmNodeType {
    proof fn lemma_codes_differ(a: Self, b: Self) {
    }

    open spec fn code_spec(&self) -> u32 {
        match self {
            LastFmNodeType::User => 0,
            LastFmNodeType::Artist => 1,
            LastFmNodeType::Tag => 2,
        }
    }

    open spec fn name_spec(&self) -> Seq<char> {
        match self {
            LastFmNodeType::User => "user"@,
            LastFmNodeType::Artist => "artist"@,
            LastFmNodeType::Tag => "tag"@,
        }
    }

    fn code(&self) -> (c: u32) {
        match self {
            LastFmNodeType::User => 0,
            LastFmNodeType::Artist => 1,
            LastFmNodeType::Tag => 2,
        }
    }

    fn name(&self) -> (s: String) {
        match self {
            LastFmNodeType::User => String::from_str("user"),
            LastFmNodeType::Artist => String::from_str("artist"),
            LastFmNodeType::Tag => String::from_str("tag"),
        }
    }
}

impl NodeLayer for OgbMagNodeType {
    proof fn lemma_codes_differ(a: Self, b: Self) {
    }

    open spec fn code_spec(&self) -> u32 {
        match self {
            OgbMagNodeType::Author => 0,
            OgbMagNodeType::Institution => 1,
            OgbMagNodeType::FieldOfStudy => 2,
            OgbMagNodeType::Paper => 3,
        }
    }

    open spec fn name_spec(&self) -> Seq<char> {
        match self {
            OgbMagNodeType::Author => "author"@,
            OgbMagNodeType::Institution => "institution"@,
            OgbMagNodeType::FieldOfStudy => "field_of_study"@,
            OgbMagNodeType::Paper => "paper"@,
        }
    }

    fn code(&self) -> (c: u32) {
        match self {
            OgbMagNodeType::Author => 0,
            OgbMagNodeType::Institution => 1,
            OgbMagNodeType::FieldOfStudy => 2,
            OgbMagNodeType::Paper => 3,
        }
    }

    fn name(&self) -> (s: String) {
        match self {
            OgbMagNodeType::Author => String::from_str("author"),
            OgbMagNodeType::Institution => String::from_str("institution"),
            OgbMagNodeType::FieldOfStudy => String::from_str("field_of_study"),
            OgbMagNodeType::Paper => String::from_str("paper"),
        }
    }
}

impl DblpNodeType {
    /// The name of the node type, as the graph's edge files spell it.
    pub fn to_string(&self) -> (s: String)
        ensures
            s@ == self.name_spec(),
    {
        self.name()
    }
}

impl ImdbNodeType {
    /// The name of the node type, as the graph's edge files spell it.
    pub fn to_string(&self) -> (s: String)
        ensures
            s@ == self.name_spec(),
    {
        self.name()
    }
}

impl LastFmNodeType {
    /// The name of the node type, as the graph's edge files spell it.
    pub fn to_string(&self) -> (s: String)
        ensures
            s@ == self.name_spec(),
    {
        self.name()
    }
}

impl OgbMagNodeType {
    /// The name of the node type, as the graph's edge files spell it.
    pub fn to_string(&self) -> (s: String)
        ensures
            s@ == self.name_spec(),
    {
        self.name()
    }
}

/// A node of a heterogeneous graph: its type and its id among the nodes of
/// that type.
#[derive(Debug, Clone, Copy, PartialEq, Eq, Hash)]
pub struct NodeId<NodeType> {
    pub layer: NodeType,
    pub id: u32,
}

impl<NodeType: NodeLayer> NodeId<NodeType> {
    /// The node as the plain pair that node sets hold: type code and id.
    pub fn key(&self) -> (k: (u32, u32))
        ensures
            k == (self.layer.code_spec(), self.id),
    {
        (self.layer.code(), self.id)
    }
}

} // verus!
