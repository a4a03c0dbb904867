//! The relational data model a value is flattened into: a flat list of atoms
//! (graph nodes) and a flat list of relation records (typed edge sets).
//!
//! This is the shape the diagram renderer consumes. Its JSON spelling names
//! an atom's type `type`; here the field is `atom_type`.

use vstd::prelude::*;

verus! {

/// The characters of each string, in order.
pub open spec fn strs(v: Seq<String>) -> Seq<Seq<char>> {
    v.map_values(|s: String| s@)
}

/// A single atom: one node of the relational graph.
///
/// `id` is unique within its instance, `atom_type` is a serde type name, a
/// struct or enum name, or one of the container names (`sequence`, `tuple`,
/// `map`, ...), and `label` is the text shown for it (for a scalar, also the
/// text that reconstruction parses).
pub struct IAtom {
    /// Unique identifier within the enclosing instance.
    pub id: String,
    /// Type name (a struct or enum name, a serde primitive, or a container).
    pub atom_type: String,
    /// Human-readable label.
    pub label: String,
}

/// The characters of an atom's three strings.
pub struct AtomView {
    pub id: Seq<char>,
    pub ty: Seq<char>,
    pub label: Seq<char>,
}

impl View for IAtom {
    type V = AtomView;

    open spec fn view(&self) -> AtomView {
        AtomView { id: self.id@, ty: self.atom_type@, label: self.label@ }
    }
}

/// One tuple of a relation: the atoms it joins and the type of each position.
pub struct ITuple {
    /// Atom ids, in position order; position 0 is the source atom.
    pub atoms: Vec<String>,
    /// The type of each position, parallel to `atoms`.
    pub types: Vec<String>,
}

/// The characters of a tuple's atom ids and types.
pub struct TupleView {
    pub atoms: Seq<Seq<char>>,
    pub types: Seq<Seq<char>>,
}

impl View for ITuple {
    type V = TupleView;

    open spec fn view(&self) -> TupleView {
        TupleView { atoms: strs(self.atoms@), types: strs(self.types@) }
    }
}

/// A relation record: the tuples of one relation name whose source atoms
/// share one type.
///
/// Its `id` spells the source type and the name, each with `.` and `\`
/// escaped, joined by a `.`; `types` summarizes the tuples' types.
pub struct IRelation {
    /// Unique record id: the escaped source type, `.`, the escaped name.
    pub id: String,
    /// Relation name: a field name, `idx`, `map_entry`, `value` or
    /// `variant_value`.
    pub name: String,
    /// Summary of the position types of the tuples.
    pub types: Vec<String>,
    /// The tuples of this record.
    pub tuples: Vec<ITuple>,
}

/// The characters of a relation record.
pub struct RelationView {
    pub id: Seq<char>,
    pub name: Seq<char>,
    pub types: Seq<Seq<char>>,
    pub tuples: Seq<TupleView>,
}

impl View for IRelation {
    type V = RelationView;

    open spec fn view(&self) -> RelationView {
        RelationView {
            id: self.id@,
            name: self.name@,
            types: strs(self.types@),
            tuples: self.tuples@.map_values(|t: ITuple| t@),
        }
    }
}

/// A relational instance: every atom and every relation record extracted
/// from one value.
pub struct JsonDataInstance {
    /// All atoms, in the order they were created.
    pub atoms: Vec<IAtom>,
    /// All relation records, in the order each was first seen.
    pub relations: Vec<IRelation>,
}

/// The characters of a whole instance.
pub struct InstanceView {
    pub atoms: Seq<AtomView>,
    pub relations: Seq<RelationView>,
}

impl View for JsonDataInstance {
    type V = InstanceView;

    open spec fn view(&self) -> InstanceView {
        InstanceView {
            atoms: self.atoms@.map_values(|a: IAtom| a@),
            relations: self.relations@.map_values(|r: IRelation| r@),
        }
    }
}

impl JsonDataInstance {
    /// An instance with no atoms and no relations.
    pub fn empty() -> (r: JsonDataInstance)
        ensures
            r@.atoms.len() == 0,
            r@.relations.len() == 0,
    {
        JsonDataInstance { atoms: Vec::new(), relations: Vec::new() }
    }
}

/// A copy of a vector of strings.
pub fn copy_strings(v: &Vec<String>) -> (r: Vec<String>)
    ensures
        r@ == v@,
{
    let mut r: Vec<String> = Vec::new();
    let mut i: usize = 0;
    while i < v.len()
        invariant
            i <= v.len(),
            r@ == v@.take(i as int),
        decreases v.len() - i,
    {
        r.push(v[i].clone());
        assert(v@.take(i as int).push(v@[i as int]) =~= v@.take(i + 1));
        i = i + 1;
    }
    assert(v@.take(v.len() as int) =~= v@);
    r
}

} // verus!
