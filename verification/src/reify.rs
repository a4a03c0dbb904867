//! Reading a relational instance back: the index a reconstruction walks,
//! and the decisions it makes at each atom.
//!
//! A reconstruction starts at the root atom, the first atom no tuple points
//! at (past its source position), and at each atom reads either the label
//! (scalars) or the atom's outgoing tuples (containers, structs, variants).
//! Sequence elements come back ordered by the number their position atom
//! spells; map entries and fields come back in the order their tuples were
//! recorded.

use vstd::prelude::*;
use crate::export::{bytes_items, bytes_label, find_atom, lemma_find_atom};
use crate::jsondata::{strs, AtomView, IAtom, IRelation, ITuple, InstanceView, JsonDataInstance,
    RelationView, TupleView};
use crate::text::{all_digits, chars_of, concat, decimal, int_error_message, is_digit, is_space,
    lemma_decimal_digits, lemma_parse_decimal, lemma_parse_signed_decimal, lemma_split_commas_join, lemma_split_commas_len,
    lemma_split_commas_prefix, lemma_split_commas_single, parse_int, parse_signed, parse_unsigned,
    same_text, signed_decimal, slice_chars, split_commas, trim, trim_bounds, trim_start, IntError};

verus! {

// ---------------------------------------------------------------------------
// Errors
// ---------------------------------------------------------------------------

/// Why a reconstruction failed, as text.
pub struct ReifyError(String);

impl View for ReifyError {
    type V = Seq<char>;

    closed spec fn view(&self) -> Seq<char> {
        self.0@
    }
}

impl ReifyError {
    /// An error carrying `s` as its message.
    pub fn msg(s: String) -> (r: ReifyError)
        ensures
            r@ == s@,
    {
        ReifyError(s)
    }

    /// The error's message.
    pub fn message(&self) -> (r: &str)
        ensures
            r@ == self@,
    {
        self.0.as_str()
    }
}

// ---------------------------------------------------------------------------
// The index: atoms, and every tuple as an edge from its source atom
// ---------------------------------------------------------------------------

/// A tuple of relation `name`, read as an edge out of `atoms[0]`.
pub struct EdgeView {
    pub name: Seq<char>,
    pub atoms: Seq<Seq<char>>,
}

/// The content of an index: the instance's atoms, and its non-empty tuples
/// as edges, record by record and tuple by tuple.
pub struct IndexView {
    pub atoms: Seq<AtomView>,
    pub edges: Seq<EdgeView>,
}

/// The non-empty tuples of `ts` as edges of relation `name`.
pub open spec fn tuple_edges(name: Seq<char>, ts: Seq<TupleView>) -> Seq<EdgeView>
    decreases ts.len(),
{
    if ts.len() == 0 {
        Seq::empty()
    } else {
        let prev = tuple_edges(name, ts.drop_last());
        if ts.last().atoms.len() >= 1 {
            prev.push(EdgeView { name, atoms: ts.last().atoms })
        } else {
            prev
        }
    }
}

/// The edges of every record, in record order.
pub open spec fn edges_of(rels: Seq<RelationView>) -> Seq<EdgeView>
    decreases rels.len(),
{
    if rels.len() == 0 {
        Seq::empty()
    } else {
        edges_of(rels.drop_last()) + tuple_edges(rels.last().name, rels.last().tuples)
    }
}

/// The index of an instance.
pub open spec fn index_of(d: InstanceView) -> IndexView {
    IndexView { atoms: d.atoms, edges: edges_of(d.relations) }
}

/// The tuples of relation `name` out of atom `src`, in order.
pub open spec fn outgoing(edges: Seq<EdgeView>, src: Seq<char>, name: Seq<char>) -> Seq<
    Seq<Seq<char>>,
>
    decreases edges.len(),
{
    if edges.len() == 0 {
        Seq::empty()
    } else {
        let prev = outgoing(edges.drop_last(), src, name);
        let e = edges.last();
        if e.name == name && e.atoms.len() >= 1 && e.atoms[0] == src {
            prev.push(e.atoms)
        } else {
            prev
        }
    }
}

/// The distinct relation names with a tuple out of `src`, in the order
/// each first appears.
pub open spec fn source_names(edges: Seq<EdgeView>, src: Seq<char>) -> Seq<Seq<char>>
    decreases edges.len(),
{
    if edges.len() == 0 {
        Seq::empty()
    } else {
        let prev = source_names(edges.drop_last(), src);
        let e = edges.last();
        if e.atoms.len() >= 1 && e.atoms[0] == src && !prev.contains(e.name) {
            prev.push(e.name)
        } else {
            prev
        }
    }
}

struct Edge {
    name: String,
    atoms: Vec<String>,
}

impl View for Edge {
    type V = EdgeView;

    closed spec fn view(&self) -> EdgeView {
        EdgeView { name: self.name@, atoms: strs(self.atoms@) }
    }
}

/// An instance prepared for reading: its atoms by id, and its tuples as
/// edges out of their source atoms.
pub struct Index {
    atoms: Vec<IAtom>,
    edges: Vec<Edge>,
}

impl View for Index {
    type V = IndexView;

    closed spec fn view(&self) -> IndexView {
        IndexView {
            atoms: self.atoms@.map_values(|a: IAtom| a@),
            edges: self.edges@.map_values(|e: Edge| e@),
        }
    }
}

fn copy_atom(a: &IAtom) -> (r: IAtom)
    ensures
        r@ == a@,
{
    IAtom { id: a.id.clone(), atom_type: a.atom_type.clone(), label: a.label.clone() }
}

proof fn lemma_tuple_edges_take(name: Seq<char>, ts: Seq<TupleView>, j: int)
    requires
        0 <= j < ts.len(),
    ensures
        tuple_edges(name, ts.take(j + 1)) == if ts[j].atoms.len() >= 1 {
            tuple_edges(name, ts.take(j)).push(EdgeView { name, atoms: ts[j].atoms })
        } else {
            tuple_edges(name, ts.take(j))
        },
{
    assert(ts.take(j + 1).drop_last() =~= ts.take(j));
}

proof fn lemma_edges_of_take(rels: Seq<RelationView>, i: int)
    requires
        0 <= i < rels.len(),
    ensures
        edges_of(rels.take(i + 1)) == edges_of(rels.take(i)) + tuple_edges(
            rels[i].name,
            rels[i].tuples,
        ),
{
    assert(rels.take(i + 1).drop_last() =~= rels.take(i));
}

/// Every edge names its source atom.
pub open spec fn edges_ok(edges: Seq<EdgeView>) -> bool {
    forall|i: int| 0 <= i < edges.len() ==> #[trigger] edges[i].atoms.len() >= 1
}

proof fn lemma_tuple_edges_ok(name: Seq<char>, ts: Seq<TupleView>)
    ensures
        edges_ok(tuple_edges(name, ts)),
    decreases ts.len(),
{
    if ts.len() > 0 {
        lemma_tuple_edges_ok(name, ts.drop_last());
    }
}

proof fn lemma_edges_of_ok(rels: Seq<RelationView>)
    ensures
        edges_ok(edges_of(rels)),
    decreases rels.len(),
{
    if rels.len() > 0 {
        lemma_edges_of_ok(rels.drop_last());
        lemma_tuple_edges_ok(rels.last().name, rels.last().tuples);
        let a = edges_of(rels.drop_last());
        let b = tuple_edges(rels.last().name, rels.last().tuples);
        assert forall|i: int| 0 <= i < (a + b).len() implies #[trigger] (a + b)[i].atoms.len()
            >= 1 by {
            if i < a.len() {
                assert((a + b)[i] == a[i]);
            } else {
                assert((a + b)[i] == b[i - a.len()]);
            }
        }
    }
}

impl Index {
    /// Every edge names its source atom.
    pub closed spec fn wf(&self) -> bool {
        edges_ok(self@.edges)
    }

    /// The index of `d`.
    pub fn build(d: &JsonDataInstance) -> (r: Index)
        ensures
            r.wf(),
            r@ == index_of(d@),
    {
        let mut atoms: Vec<IAtom> = Vec::new();
        let mut i: usize = 0;
        while i < d.atoms.len()
            invariant
                i <= d.atoms@.len(),
                atoms@.map_values(|a: IAtom| a@) == d@.atoms.take(i as int),
            decreases d.atoms.len() - i,
        {
            let a = copy_atom(&d.atoms[i]);
            let ghost prev = atoms@;
            atoms.push(a);
            assert(atoms@.map_values(|a: IAtom| a@) =~= prev.map_values(|a: IAtom| a@).push(a@));
            assert(d@.atoms.take(i + 1) =~= d@.atoms.take(i as int).push(d@.atoms[i as int]));
            i = i + 1;
        }
        assert(d@.atoms.take(d@.atoms.len() as int) =~= d@.atoms);
        let mut edges: Vec<Edge> = Vec::new();
        let ghost rels = d@.relations;
        let mut i: usize = 0;
        assert(rels.take(0) =~= Seq::<RelationView>::empty());
        while i < d.relations.len()
            invariant
                i <= rels.len(),
                rels == d@.relations,
                edges@.map_values(|e: Edge| e@) == edges_of(rels.take(i as int)),
            decreases d.relations.len() - i,
        {
            let rel = &d.relations[i];
            let ghost ts = rels[i as int].tuples;
            let ghost base = edges@.map_values(|e: Edge| e@);
            assert(ts.take(0) =~= Seq::<TupleView>::empty());
            let mut j: usize = 0;
            while j < rel.tuples.len()
                invariant
                    j <= ts.len(),
                    i < rels.len(),
                    rels == d@.relations,
                    ts == rels[i as int].tuples,
                    rel@ == rels[i as int],
                    edges@.map_values(|e: Edge| e@) == base + tuple_edges(rel.name@, ts.take(j as int)),
                decreases rel.tuples.len() - j,
            {
                proof {
                    lemma_tuple_edges_take(rel.name@, ts, j as int);
                }
                let t = &rel.tuples[j];
                assert(ts[j as int] == t@);
                if t.atoms.len() >= 1 {
                    let e = Edge { name: rel.name.clone(), atoms: crate::jsondata::copy_strings(&t.atoms) };
                    let ghost prev = edges@;
                    edges.push(e);
                    assert(edges@.map_values(|e: Edge| e@) =~= prev.map_values(|e: Edge| e@).push(e@));
                }
                j = j + 1;
            }
            assert(ts.take(ts.len() as int) =~= ts);
            proof {
                lemma_edges_of_take(rels, i as int);
            }
            i = i + 1;
        }
        assert(rels.take(rels.len() as int) =~= rels);
        proof {
            lemma_edges_of_ok(rels);
        }
        Index { atoms, edges }
    }
}


// ---------------------------------------------------------------------------
// Facts about `outgoing` and `source_names`
// ---------------------------------------------------------------------------

/// `outgoing` over a prefix of the edges is a prefix of `outgoing` over all.
proof fn lemma_outgoing_prefix(edges: Seq<EdgeView>, i: int, src: Seq<char>, name: Seq<char>)
    requires
        0 <= i <= edges.len(),
    ensures
        outgoing(edges.take(i), src, name).len() <= outgoing(edges, src, name).len(),
        outgoing(edges.take(i), src, name) == outgoing(edges, src, name).take(
            outgoing(edges.take(i), src, name).len() as int,
        ),
    decreases edges.len(),
{
    let o = outgoing(edges, src, name);
    if i == edges.len() {
        assert(edges.take(i) =~= edges);
        assert(o.take(o.len() as int) =~= o);
    } else {
        assert(edges.take(i) =~= edges.drop_last().take(i));
        lemma_outgoing_prefix(edges.drop_last(), i, src, name);
        let p = outgoing(edges.drop_last(), src, name);
        let q = outgoing(edges.take(i), src, name);
        assert(p.take(q.len() as int) =~= o.take(q.len() as int));
    }
}

/// Extending a prefix of the edges by one edge.
proof fn lemma_outgoing_step(edges: Seq<EdgeView>, i: int, src: Seq<char>, name: Seq<char>)
    requires
        0 <= i < edges.len(),
    ensures
        outgoing(edges.take(i + 1), src, name) == if edges[i].name == name
            && edges[i].atoms.len() >= 1 && edges[i].atoms[0] == src {
            outgoing(edges.take(i), src, name).push(edges[i].atoms)
        } else {
            outgoing(edges.take(i), src, name)
        },
        source_names(edges.take(i + 1), src) == if edges[i].atoms.len() >= 1 && edges[i].atoms[0]
            == src && !source_names(edges.take(i), src).contains(edges[i].name) {
            source_names(edges.take(i), src).push(edges[i].name)
        } else {
            source_names(edges.take(i), src)
        },
{
    assert(edges.take(i + 1).drop_last() =~= edges.take(i));
}

/// A relation name is among `source_names` exactly when it has a tuple out
/// of `src`.
pub(crate) proof fn lemma_source_names(edges: Seq<EdgeView>, src: Seq<char>, name: Seq<char>)
    ensures
        source_names(edges, src).contains(name) <==> outgoing(edges, src, name).len() > 0,
    decreases edges.len(),
{
    if edges.len() > 0 {
        lemma_source_names(edges.drop_last(), src, name);
        let prev = source_names(edges.drop_last(), src);
        let e = edges.last();
        if e.atoms.len() >= 1 && e.atoms[0] == src && !prev.contains(e.name) {
            if e.name != name {
                assert(prev.push(e.name).contains(name) == prev.contains(name)) by {
                    if prev.push(e.name).contains(name) {
                        let j = choose|j: int| 0 <= j < prev.push(e.name).len() && prev.push(e.name)[j] == name;
                        assert(prev[j] == name);
                    }
                    if prev.contains(name) {
                        let j = choose|j: int| 0 <= j < prev.len() && prev[j] == name;
                        assert(prev.push(e.name)[j] == name);
                    }
                }
            } else {
                assert(prev.push(e.name)[prev.len() as int] == name);
            }
        }
    }
}

// ---------------------------------------------------------------------------
// Reading the index
// ---------------------------------------------------------------------------

/// The target of relation `rel` out of `src`: the second atom of its first
/// tuple, if there is one.
pub open spec fn target_of(ix: IndexView, src: Seq<char>, rel: Seq<char>) -> Option<Seq<char>> {
    let o = outgoing(ix.edges, src, rel);
    if o.len() > 0 && o[0].len() >= 2 {
        Some(o[0][1])
    } else {
        None
    }
}

/// The (key, value) pairs of a map's `map_entry` tuples, in order.
pub open spec fn entry_pairs(ts: Seq<Seq<Seq<char>>>) -> Seq<(Seq<char>, Seq<char>)>
    decreases ts.len(),
{
    if ts.len() == 0 {
        Seq::empty()
    } else {
        let prev = entry_pairs(ts.drop_last());
        if ts.last().len() >= 3 {
            prev.push((ts.last()[1], ts.last()[2]))
        } else {
            prev
        }
    }
}

/// Views of owned string pairs.
pub open spec fn pair_views(v: Seq<(String, String)>) -> Seq<(Seq<char>, Seq<char>)> {
    v.map_values(|p: (String, String)| (p.0@, p.1@))
}

/// The message for a missing atom.
pub open spec fn atom_missing(id: Seq<char>) -> Seq<char> {
    "atom not found: "@ + id
}

/// The message for a missing relation.
pub open spec fn relation_missing(src: Seq<char>, rel: Seq<char>) -> Seq<char> {
    "missing relation '"@ + rel + "' from atom "@ + src
}

fn join3(a: &str, b: &str, c: &str) -> (r: String)
    ensures
        r@ == a@ + b@ + c@,
{
    let mut s = String::from_str(a);
    s.append(b);
    s.append(c);
    s
}

fn join4(a: &str, b: &str, c: &str, d: &str) -> (r: String)
    ensures
        r@ == a@ + b@ + c@ + d@,
{
    let mut s = join3(a, b, c);
    s.append(d);
    s
}

impl Index {
    fn atom_index(&self, id: &str) -> (r: Option<usize>)
        ensures
            match r {
                Some(i) => find_atom(self@.atoms, id@) == Some(i as int) && i < self.atoms@.len()
                    && self@.atoms[i as int] == self.atoms@[i as int]@,
                None => find_atom(self@.atoms, id@) is None,
            },
    {
        let mut i = self.atoms.len();
        let ghost t = self@.atoms;
        assert(t.take(i as int) =~= t);
        while i > 0
            invariant
                i <= self.atoms@.len(),
                t == self@.atoms,
                t.len() == self.atoms@.len(),
                find_atom(t, id@) == find_atom(t.take(i as int), id@),
            decreases i,
        {
            assert(t.take(i as int).last() == t[i - 1]);
            assert(t.take(i as int).drop_last() =~= t.take(i - 1));
            if same_text(self.atoms[i - 1].id.as_str(), id) {
                return Some(i - 1);
            }
            i = i - 1;
        }
        assert(t.take(0) =~= Seq::<AtomView>::empty());
        None
    }

    /// The atom with id `id` (the last one, should ids repeat).
    pub fn atom(&self, id: &str) -> (r: Result<&IAtom, ReifyError>)
        ensures
            match find_atom(self@.atoms, id@) {
                Some(i) => r matches Ok(a) && a@ == self@.atoms[i],
                None => r matches Err(e) && e@ == atom_missing(id@),
            },
    {
        match self.atom_index(id) {
            Some(i) => Ok(&self.atoms[i]),
            None => Err(ReifyError::msg(concat("atom not found: ", id))),
        }
    }

    /// The single target of the binary relation `rel` out of `src`: the
    /// second atom of its first tuple.
    pub fn single_target(&self, src: &str, rel: &str) -> (r: Result<String, ReifyError>)
        requires
            self.wf(),
        ensures
            match target_of(self@, src@, rel@) {
                Some(t) => r matches Ok(s) && s@ == t,
                None => r matches Err(e) && e@ == relation_missing(src@, rel@),
            },
    {
        let ghost edges = self@.edges;
        let mut i: usize = 0;
        assert(edges.take(0) =~= Seq::<EdgeView>::empty());
        while i < self.edges.len()
            invariant
                i <= self.edges@.len(),
                edges == self@.edges,
                edges.len() == self.edges@.len(),
                edges_ok(edges),
                outgoing(edges.take(i as int), src@, rel@).len() == 0,
            decreases self.edges.len() - i,
        {
            let e = &self.edges[i];
            assert(edges[i as int] == e@);
            assert(edges[i as int].atoms.len() >= 1);
            proof {
                lemma_outgoing_step(edges, i as int, src@, rel@);
                lemma_outgoing_prefix(edges, i + 1, src@, rel@);
            }
            if same_text(e.name.as_str(), rel) && same_text(e.atoms[0].as_str(), src) {
                assert(e@.atoms[0] == e.atoms@[0]@);
                let ghost o1 = outgoing(edges.take(i + 1), src@, rel@);
                assert(o1.len() == 1 && o1[0] == e@.atoms);
                assert(outgoing(edges, src@, rel@).take(1)[0] == outgoing(edges, src@, rel@)[0]);
                assert(outgoing(edges, src@, rel@)[0] == e@.atoms);
                if e.atoms.len() >= 2 {
                    return Ok(e.atoms[1].clone());
                } else {
                    return Err(ReifyError::msg(join4("missing relation '", rel, "' from atom ", src)));
                }
            }
            i = i + 1;
        }
        assert(edges.take(i as int) =~= edges);
        Err(ReifyError::msg(join4("missing relation '", rel, "' from atom ", src)))
    }

    /// The (key atom, value atom) pairs of a map's `map_entry` tuples, in
    /// order; a tuple with fewer than three atoms is passed over.
    pub fn map_entries(&self, src: &str) -> (r: Vec<(String, String)>)
        requires
            self.wf(),
        ensures
            pair_views(r@) == entry_pairs(outgoing(self@.edges, src@, "map_entry"@)),
    {
        let ghost edges = self@.edges;
        let ghost rel = "map_entry"@;
        let mut out: Vec<(String, String)> = Vec::new();
        let mut i: usize = 0;
        assert(edges.take(0) =~= Seq::<EdgeView>::empty());
        while i < self.edges.len()
            invariant
                i <= self.edges@.len(),
                edges == self@.edges,
                rel == "map_entry"@,
                edges.len() == self.edges@.len(),
                edges_ok(edges),
                pair_views(out@) == entry_pairs(outgoing(edges.take(i as int), src@, rel)),
            decreases self.edges.len() - i,
        {
            let e = &self.edges[i];
            assert(edges[i as int] == e@);
            assert(edges[i as int].atoms.len() >= 1);
            proof {
                lemma_outgoing_step(edges, i as int, src@, rel);
            }
            if same_text(e.name.as_str(), "map_entry") && same_text(e.atoms[0].as_str(), src) {
                let ghost o = outgoing(edges.take(i as int), src@, rel);
                assert(o.push(e@.atoms).drop_last() =~= o);
                if e.atoms.len() >= 3 {
                    let ghost prev = out@;
                    out.push((e.atoms[1].clone(), e.atoms[2].clone()));
                    assert(pair_views(out@) =~= pair_views(prev).push((e@.atoms[1], e@.atoms[2])));
                }
            }
            i = i + 1;
        }
        assert(edges.take(i as int) =~= edges);
        out
    }
}

// ---------------------------------------------------------------------------
// The root atom
// ---------------------------------------------------------------------------

/// Whether some tuple points at `id` past its source position.
pub open spec fn targeted(edges: Seq<EdgeView>, id: Seq<char>) -> bool {
    exists|e: int, k: int| 0 <= e < edges.len() && 1 <= k < edges[e].atoms.len() && #[trigger] edges[e].atoms[k] == id
}

/// The message for an instance with no atoms.
pub open spec fn no_atoms() -> Seq<char> {
    "empty data instance: no atoms"@
}

/// The message for an instance whose every atom is pointed at.
pub open spec fn no_root() -> Seq<char> {
    "no root atom: every atom is referenced (unexpected for export output)"@
}

impl Index {
    fn is_targeted(&self, id: &str) -> (r: bool)
        ensures
            r == targeted(self@.edges, id@),
    {
        let ghost edges = self@.edges;
        let mut i: usize = 0;
        while i < self.edges.len()
            invariant
                i <= self.edges@.len(),
                edges == self@.edges,
                edges.len() == self.edges@.len(),
                forall|e: int, k: int| 0 <= e < i && 1 <= k < edges[e].atoms.len() ==> #[trigger] edges[e].atoms[k] != id@,
            decreases self.edges.len() - i,
        {
            let e = &self.edges[i];
            assert(edges[i as int] == e@);
            let mut k: usize = 1;
            while k < e.atoms.len()
                invariant
                    1 <= k <= e.atoms@.len() || e.atoms@.len() == 0,
                    i < edges.len(),
                    edges == self@.edges,
                    edges[i as int] == e@,
                    forall|x: int| 1 <= x < k && x < edges[i as int].atoms.len() ==> #[trigger] edges[i as int].atoms[x] != id@,
                decreases e.atoms.len() - k,
            {
                if same_text(e.atoms[k].as_str(), id) {
                    assert(edges[i as int].atoms[k as int] == id@);
                    return true;
                }
                k = k + 1;
            }
            i = i + 1;
        }
        false
    }
}

/// The root atom of `d`: the first atom that no tuple points at past its
/// source position.
pub fn find_root(d: &JsonDataInstance) -> (r: Result<String, ReifyError>)
    ensures
        d@.atoms.len() == 0 ==> (r matches Err(e) && e@ == no_atoms()),
        d@.atoms.len() > 0 ==> match r {
            Ok(id) => exists|i: int|
                0 <= i < d@.atoms.len() && d@.atoms[i].id == id@ && !targeted(
                    edges_of(d@.relations),
                    id@,
                ) && forall|j: int|
                    0 <= j < i ==> targeted(edges_of(d@.relations), #[trigger] d@.atoms[j].id),
            Err(e) => e@ == no_root() && forall|j: int|
                0 <= j < d@.atoms.len() ==> targeted(edges_of(d@.relations), #[trigger] d@.atoms[j].id),
        },
{
    if d.atoms.len() == 0 {
        return Err(ReifyError::msg(String::from_str("empty data instance: no atoms")));
    }
    let ix = Index::build(d);
    let mut i: usize = 0;
    while i < d.atoms.len()
        invariant
            i <= d@.atoms.len(),
            ix@ == index_of(d@),
            forall|j: int| 0 <= j < i ==> targeted(edges_of(d@.relations), #[trigger] d@.atoms[j].id),
        decreases d.atoms.len() - i,
    {
        let id = d.atoms[i].id.as_str();
        assert(d@.atoms[i as int].id == id@);
        if !ix.is_targeted(id) {
            return Ok(d.atoms[i].id.clone());
        }
        i = i + 1;
    }
    Err(ReifyError::msg(String::from_str("no root atom: every atom is referenced (unexpected for export output)")))
}

// ---------------------------------------------------------------------------
// Struct fields
// ---------------------------------------------------------------------------

/// For each name of `names`, the name and the second atom of its first
/// tuple out of `src` (names whose first tuple is shorter are passed over).
pub open spec fn field_pairs(edges: Seq<EdgeView>, src: Seq<char>, names: Seq<Seq<char>>) -> Seq<
    (Seq<char>, Seq<char>),
>
    decreases names.len(),
{
    if names.len() == 0 {
        Seq::empty()
    } else {
        let prev = field_pairs(edges, src, names.drop_last());
        let n = names.last();
        let first = outgoing(edges, src, n)[0];
        if first.len() >= 2 {
            prev.push((n, first[1]))
        } else {
            prev
        }
    }
}

/// The fields of the struct or struct variant at `src`: each relation out
/// of it, in the order first seen, with the target of its first tuple.
pub open spec fn struct_fields_of(ix: IndexView, src: Seq<char>) -> Seq<(Seq<char>, Seq<char>)> {
    field_pairs(ix.edges, src, source_names(ix.edges, src))
}

fn contains_text(v: &Vec<String>, x: &str) -> (r: bool)
    ensures
        r == strs(v@).contains(x@),
{
    let mut i: usize = 0;
    while i < v.len()
        invariant
            i <= v@.len(),
            forall|j: int| 0 <= j < i ==> strs(v@)[j] != x@,
        decreases v.len() - i,
    {
        if same_text(v[i].as_str(), x) {
            assert(strs(v@)[i as int] == x@);
            return true;
        }
        i = i + 1;
    }
    false
}

impl Index {
    /// The (field name, value atom) pairs of the struct or struct variant at
    /// `src`, one per relation out of it, in the order first seen.
    pub fn struct_fields(&self, src: &str) -> (r: Vec<(String, String)>)
        requires
            self.wf(),
        ensures
            pair_views(r@) == struct_fields_of(self@, src@),
    {
        let ghost edges = self@.edges;
        let mut seen: Vec<String> = Vec::new();
        let mut out: Vec<(String, String)> = Vec::new();
        let mut i: usize = 0;
        assert(edges.take(0) =~= Seq::<EdgeView>::empty());
        assert(strs(seen@) =~= Seq::<Seq<char>>::empty());
        while i < self.edges.len()
            invariant
                i <= self.edges@.len(),
                edges == self@.edges,
                edges.len() == self.edges@.len(),
                edges_ok(edges),
                strs(seen@) == source_names(edges.take(i as int), src@),
                pair_views(out@) == field_pairs(edges, src@, strs(seen@)),
            decreases self.edges.len() - i,
        {
            let e = &self.edges[i];
            assert(edges[i as int] == e@);
            assert(edges[i as int].atoms.len() >= 1);
            assert(e@.atoms[0] == e.atoms@[0]@);
            proof {
                lemma_outgoing_step(edges, i as int, src@, e@.name);
                lemma_outgoing_prefix(edges, i + 1, src@, e@.name);
            }
            if same_text(e.atoms[0].as_str(), src) {
                if !contains_text(&seen, e.name.as_str()) {
                    proof {
                        lemma_source_names(edges.take(i as int), src@, e@.name);
                        let o1 = outgoing(edges.take(i + 1), src@, e@.name);
                        assert(o1.len() == 1 && o1[0] == e@.atoms);
                        assert(outgoing(edges, src@, e@.name).take(1)[0] == outgoing(edges, src@, e@.name)[0]);
                    }
                    let ghost names = strs(seen@);
                    seen.push(e.name.clone());
                    assert(strs(seen@) =~= names.push(e@.name));
                    assert(strs(seen@).drop_last() =~= names);
                    if e.atoms.len() >= 2 {
                        let ghost prev = out@;
                        out.push((e.name.clone(), e.atoms[1].clone()));
                        assert(pair_views(out@) =~= pair_views(prev).push((e@.name, e@.atoms[1])));
                    }
                }
            }
            i = i + 1;
        }
        assert(edges.take(i as int) =~= edges);
        out
    }
}

// ---------------------------------------------------------------------------
// Sequence elements
// ---------------------------------------------------------------------------

/// The label of the atom `id` names, or `id` itself when no atom has it.
pub open spec fn label_or_id(atoms: Seq<AtomView>, id: Seq<char>) -> Seq<char> {
    match find_atom(atoms, id) {
        Some(i) => atoms[i].label,
        None => id,
    }
}

/// The (position, element) pairs of `idx` tuples whose position reads as a
/// `usize`, in tuple order; other tuples are passed over.
pub open spec fn positioned(atoms: Seq<AtomView>, ts: Seq<Seq<Seq<char>>>) -> Seq<(int, Seq<char>)>
    decreases ts.len(),
{
    if ts.len() == 0 {
        Seq::empty()
    } else {
        let prev = positioned(atoms, ts.drop_last());
        let t = ts.last();
        if t.len() >= 3 {
            match parse_int(label_or_id(atoms, t[1]), false, 0, usize::MAX as int) {
                Ok(p) => prev.push((p, t[2])),
                Err(_) => prev,
            }
        } else {
            prev
        }
    }
}

/// The smallest position among `items` (0 for none).
pub open spec fn key_min(items: Seq<(int, Seq<char>)>) -> int
    decreases items.len(),
{
    if items.len() == 0 {
        0
    } else if items.len() == 1 {
        items[0].0
    } else {
        let m = key_min(items.drop_last());
        if items.last().0 < m {
            items.last().0
        } else {
            m
        }
    }
}

/// The items at position `k`, in order.
pub open spec fn with_key(items: Seq<(int, Seq<char>)>, k: int) -> Seq<(int, Seq<char>)>
    decreases items.len(),
{
    if items.len() == 0 {
        Seq::empty()
    } else if items.last().0 == k {
        with_key(items.drop_last(), k).push(items.last())
    } else {
        with_key(items.drop_last(), k)
    }
}

/// The items at other positions than `k`, in order.
pub open spec fn without_key(items: Seq<(int, Seq<char>)>, k: int) -> Seq<(int, Seq<char>)>
    decreases items.len(),
{
    if items.len() == 0 {
        Seq::empty()
    } else if items.last().0 != k {
        without_key(items.drop_last(), k).push(items.last())
    } else {
        without_key(items.drop_last(), k)
    }
}

pub proof fn lemma_key_min(items: Seq<(int, Seq<char>)>)
    requires
        items.len() > 0,
    ensures
        exists|j: int| 0 <= j < items.len() && items[j].0 == key_min(items),
        forall|j: int| 0 <= j < items.len() ==> key_min(items) <= #[trigger] items[j].0,
    decreases items.len(),
{
    if items.len() == 1 {
        assert(items[0].0 == key_min(items));
    } else {
        lemma_key_min(items.drop_last());
        let j = choose|j: int| 0 <= j < items.drop_last().len() && items.drop_last()[j].0 == key_min(items.drop_last());
        assert(items[j] == items.drop_last()[j]);
        if items.last().0 < key_min(items.drop_last()) {
            assert(items[items.len() - 1].0 == key_min(items));
        } else {
            assert(items[j].0 == key_min(items));
        }
        assert forall|x: int| 0 <= x < items.len() implies key_min(items) <= #[trigger] items[x].0 by {
            if x < items.len() - 1 {
                assert(items[x] == items.drop_last()[x]);
            }
        }
    }
}

pub proof fn lemma_key_split(items: Seq<(int, Seq<char>)>, k: int)
    ensures
        with_key(items, k).len() + without_key(items, k).len() == items.len(),
        (exists|j: int| 0 <= j < items.len() && items[j].0 == k) ==> with_key(items, k).len() > 0,
    decreases items.len(),
{
    if items.len() > 0 {
        lemma_key_split(items.drop_last(), k);
        if items.last().0 != k && exists|j: int| 0 <= j < items.len() && items[j].0 == k {
            let j = choose|j: int| 0 <= j < items.len() && items[j].0 == k;
            assert(items.drop_last()[j] == items[j]);
        }
    }
}

/// `items` stably sorted by position: the items at the smallest position,
/// in their order, then the rest sorted the same way.
pub open spec fn by_position(items: Seq<(int, Seq<char>)>) -> Seq<(int, Seq<char>)>
    decreases items.len(),
{
    if items.len() == 0 {
        Seq::empty()
    } else {
        let m = key_min(items);
        proof {
            lemma_key_min(items);
            lemma_key_split(items, m);
        }
        with_key(items, m) + by_position(without_key(items, m))
    }
}

/// The element atoms of the sequence, tuple or tuple variant at `src`,
/// ordered by the number each position atom spells.
pub open spec fn seq_elems_of(ix: IndexView, src: Seq<char>) -> Seq<Seq<char>> {
    by_position(positioned(ix.atoms, outgoing(ix.edges, src, "idx"@))).map_values(
        |p: (int, Seq<char>)| p.1,
    )
}


/// Items already in strictly increasing position order.
pub open spec fn increasing(items: Seq<(int, Seq<char>)>) -> bool {
    forall|i: int, j: int| 0 <= i < j < items.len() ==> #[trigger] items[i].0 < #[trigger] items[j].0
}

proof fn lemma_increasing_groups(items: Seq<(int, Seq<char>)>)
    requires
        items.len() > 0,
        increasing(items),
    ensures
        key_min(items) == items[0].0,
        with_key(items, items[0].0) == seq![items[0]],
        without_key(items, items[0].0) == items.drop_first(),
    decreases items.len(),
{
    if items.len() == 1 {
        let d = items.drop_last();
        let k = items[0].0;
        assert(d.len() == 0);
        assert(items.last() == items[0]);
        assert(with_key(d, k) == Seq::<(int, Seq<char>)>::empty());
        assert(without_key(d, k) == Seq::<(int, Seq<char>)>::empty());
        assert(with_key(items, k) == with_key(d, k).push(items[0]));
        assert(with_key(items, k) =~= seq![items[0]]);
        assert(without_key(items, k) == without_key(d, k));
        assert(items.drop_first() =~= Seq::<(int, Seq<char>)>::empty());
    } else {
        let d = items.drop_last();
        assert(increasing(d)) by {
            assert forall|i: int, j: int| 0 <= i < j < d.len() implies #[trigger] d[i].0 < #[trigger] d[j].0 by {
                assert(d[i] == items[i] && d[j] == items[j]);
            }
        }
        lemma_increasing_groups(d);
        assert(d[0] == items[0]);
        assert(items.last().0 > items[0].0) by {
            assert(items[0].0 < items[items.len() - 1].0);
        }
        assert(with_key(items, items[0].0) == with_key(d, items[0].0));
        assert(without_key(items, items[0].0) == without_key(d, items[0].0).push(items.last()));
        assert(d.drop_first().push(items.last()) =~= items.drop_first());
    }
}

/// Items already in increasing position order come out of the stable sort
/// as they went in.
pub proof fn lemma_by_position_increasing(items: Seq<(int, Seq<char>)>)
    requires
        increasing(items),
    ensures
        by_position(items) == items,
    decreases items.len(),
{
    if items.len() > 0 {
        lemma_increasing_groups(items);
        let rest = items.drop_first();
        assert(increasing(rest)) by {
            assert forall|i: int, j: int| 0 <= i < j < rest.len() implies #[trigger] rest[i].0 < #[trigger] rest[j].0 by {
                assert(rest[i] == items[i + 1] && rest[j] == items[j + 1]);
            }
        }
        lemma_by_position_increasing(rest);
        assert(seq![items[0]] + rest =~= items);
    }
}

/// Elements whose `idx` tuples out of `src` name, in order, positions
/// whose atoms are labelled `0`, `1`, ... come back in that order.
pub proof fn lemma_seq_elems_in_order(ix: IndexView, src: Seq<char>, elems: Seq<Seq<char>>)
    requires
        elems.len() <= usize::MAX + 1,
        outgoing(ix.edges, src, "idx"@).len() == elems.len(),
        forall|k: int|
            0 <= k < elems.len() ==> {
                let t = #[trigger] outgoing(ix.edges, src, "idx"@)[k];
                &&& t.len() == 3
                &&& t[2] == elems[k]
                &&& label_or_id(ix.atoms, t[1]) == decimal(k as nat)
            },
    ensures
        seq_elems_of(ix, src) == elems,
{
    let ts = outgoing(ix.edges, src, "idx"@);
    let items = Seq::new(elems.len(), |k: int| (k, elems[k]));
    lemma_positioned_in_order(ix.atoms, ts, elems);
    assert(increasing(items));
    lemma_by_position_increasing(items);
    assert(item_ids(items) =~= elems);
}

proof fn lemma_positioned_in_order(atoms: Seq<AtomView>, ts: Seq<Seq<Seq<char>>>, elems: Seq<Seq<char>>)
    requires
        elems.len() <= usize::MAX + 1,
        ts.len() == elems.len(),
        forall|k: int|
            0 <= k < elems.len() ==> {
                let t = #[trigger] ts[k];
                &&& t.len() == 3
                &&& t[2] == elems[k]
                &&& label_or_id(atoms, t[1]) == decimal(k as nat)
            },
    ensures
        positioned(atoms, ts) == Seq::new(elems.len(), |k: int| (k, elems[k])),
    decreases ts.len(),
{
    if ts.len() > 0 {
        let n = ts.len() - 1;
        assert forall|k: int| 0 <= k < elems.drop_last().len() implies {
            let t = #[trigger] ts.drop_last()[k];
            &&& t.len() == 3
            &&& t[2] == elems.drop_last()[k]
            &&& label_or_id(atoms, t[1]) == decimal(k as nat)
        } by {
            assert(ts.drop_last()[k] == ts[k]);
        }
        lemma_positioned_in_order(atoms, ts.drop_last(), elems.drop_last());
        let t = ts[n];
        assert(ts.last() == t);
        lemma_parse_decimal(n as nat, 0, usize::MAX as int);
        assert(Seq::new(elems.drop_last().len(), |k: int| (k, elems.drop_last()[k])).push((n, elems[n]))
            =~= Seq::new(elems.len(), |k: int| (k, elems[k])));
    } else {
        assert(Seq::new(elems.len(), |k: int| (k, elems[k])) =~= Seq::<(int, Seq<char>)>::empty());
    }
}

/// Views of (position, id) items.
pub open spec fn item_views(v: Seq<(usize, String)>) -> Seq<(int, Seq<char>)> {
    v.map_values(|p: (usize, String)| (p.0 as int, p.1@))
}

/// The ids of (position, id) items.
pub open spec fn item_ids(v: Seq<(int, Seq<char>)>) -> Seq<Seq<char>> {
    v.map_values(|p: (int, Seq<char>)| p.1)
}

fn min_position(v: &Vec<(usize, String)>) -> (m: usize)
    requires
        v@.len() > 0,
    ensures
        m as int == key_min(item_views(v@)),
{
    let ghost iv = item_views(v@);
    let mut m: usize = v[0].0;
    assert(iv.take(1).len() == 1 && iv.take(1)[0] == iv[0]);
    let mut i: usize = 1;
    while i < v.len()
        invariant
            1 <= i <= v@.len(),
            iv == item_views(v@),
            m as int == key_min(iv.take(i as int)),
        decreases v.len() - i,
    {
        assert(iv.take(i + 1).drop_last() =~= iv.take(i as int));
        assert(iv.take(i + 1).last() == iv[i as int]);
        if v[i].0 < m {
            m = v[i].0;
        }
        i = i + 1;
    }
    assert(iv.take(v@.len() as int) =~= iv);
    m
}

fn split_position(v: &Vec<(usize, String)>, k: usize) -> (r: (Vec<String>, Vec<(usize, String)>))
    ensures
        strs(r.0@) == item_ids(with_key(item_views(v@), k as int)),
        item_views(r.1@) == without_key(item_views(v@), k as int),
{
    let ghost iv = item_views(v@);
    let mut eq: Vec<String> = Vec::new();
    let mut ne: Vec<(usize, String)> = Vec::new();
    let mut i: usize = 0;
    assert(iv.take(0) =~= Seq::<(int, Seq<char>)>::empty());
    while i < v.len()
        invariant
            i <= v@.len(),
            iv == item_views(v@),
            strs(eq@) == item_ids(with_key(iv.take(i as int), k as int)),
            item_views(ne@) == without_key(iv.take(i as int), k as int),
        decreases v.len() - i,
    {
        assert(iv.take(i + 1).drop_last() =~= iv.take(i as int));
        assert(iv.take(i + 1).last() == iv[i as int]);
        if v[i].0 == k {
            let ghost prev = eq@;
            let ghost w = with_key(iv.take(i as int), k as int);
            eq.push(v[i].1.clone());
            assert(strs(eq@) =~= strs(prev).push(v@[i as int].1@));
            assert(item_ids(w.push(iv[i as int])) =~= item_ids(w).push(iv[i as int].1));
        } else {
            let ghost prev = ne@;
            ne.push((v[i].0, v[i].1.clone()));
            assert(item_views(ne@) =~= item_views(prev).push(iv[i as int]));
        }
        i = i + 1;
    }
    assert(iv.take(v@.len() as int) =~= iv);
    (eq, ne)
}

/// Sorts (position, id) items stably by position and keeps the ids.
fn sort_by_position(items: Vec<(usize, String)>) -> (r: Vec<String>)
    ensures
        strs(r@) == item_ids(by_position(item_views(items@))),
{
    let ghost all = item_views(items@);
    let mut out: Vec<String> = Vec::new();
    let mut rest = items;
    assert(strs(out@) + item_ids(by_position(item_views(rest@))) =~= item_ids(by_position(all)));
    while rest.len() > 0
        invariant
            strs(out@) + item_ids(by_position(item_views(rest@))) == item_ids(by_position(all)),
        decreases rest.len(),
    {
        let ghost rv = item_views(rest@);
        let m = min_position(&rest);
        proof {
            lemma_key_min(rv);
            lemma_key_split(rv, m as int);
        }
        let (mut eq, ne) = split_position(&rest, m);
        assert(by_position(rv) == with_key(rv, m as int) + by_position(without_key(rv, m as int)));
        assert(item_ids(with_key(rv, m as int) + by_position(without_key(rv, m as int))) =~= item_ids(
            with_key(rv, m as int),
        ) + item_ids(by_position(without_key(rv, m as int))));
        let ghost prev = out@;
        out.append(&mut eq);
        assert(strs(out@) =~= strs(prev) + item_ids(with_key(rv, m as int)));
        rest = ne;
    }
    assert(item_views(rest@) =~= Seq::<(int, Seq<char>)>::empty());
    assert(strs(out@) + item_ids(Seq::<(int, Seq<char>)>::empty()) =~= strs(out@));
    out
}

impl Index {
    /// The element atoms of the sequence, tuple, tuple struct or tuple
    /// variant at `src`, ordered by the position each `idx` tuple gives
    /// (the label of the position atom, or the position entry itself when it
    /// names no atom, read as a `usize`); equal positions keep tuple order,
    /// and a tuple whose position does not read is passed over.
    pub fn seq_elems(&self, src: &str) -> (r: Vec<String>)
        requires
            self.wf(),
        ensures
            strs(r@) == seq_elems_of(self@, src@),
    {
        let ghost edges = self@.edges;
        let ghost rel = "idx"@;
        let mut items: Vec<(usize, String)> = Vec::new();
        let mut i: usize = 0;
        assert(edges.take(0) =~= Seq::<EdgeView>::empty());
        while i < self.edges.len()
            invariant
                i <= self.edges@.len(),
                edges == self@.edges,
                rel == "idx"@,
                edges.len() == self.edges@.len(),
                edges_ok(edges),
                item_views(items@) == positioned(self@.atoms, outgoing(edges.take(i as int), src@, rel)),
            decreases self.edges.len() - i,
        {
            let e = &self.edges[i];
            assert(edges[i as int] == e@);
            assert(edges[i as int].atoms.len() >= 1);
            proof {
                lemma_outgoing_step(edges, i as int, src@, rel);
            }
            if same_text(e.name.as_str(), "idx") && same_text(e.atoms[0].as_str(), src) {
                let ghost o = outgoing(edges.take(i as int), src@, rel);
                assert(o.push(e@.atoms).drop_last() =~= o);
                if e.atoms.len() >= 3 {
                    let pos = e.atoms[1].as_str();
                    proof {
                        lemma_find_atom(self@.atoms, pos@);
                    }
                    let label = match self.atom_index(pos) {
                        Some(k) => self.atoms[k].label.as_str(),
                        None => pos,
                    };
                    assert(label@ == label_or_id(self@.atoms, e@.atoms[1]));
                    let chars = chars_of(label);
                    match parse_unsigned(chars.as_slice(), usize::MAX as u128) {
                        Ok(p) => {
                            let ghost prev = items@;
                            items.push((p as usize, e.atoms[2].clone()));
                            assert(item_views(items@) =~= item_views(prev).push((p as int, e@.atoms[2])));
                        },
                        Err(_) => {},
                    }
                }
            }
            i = i + 1;
        }
        assert(edges.take(i as int) =~= edges);
        sort_by_position(items)
    }
}


// ---------------------------------------------------------------------------
// Byte-array labels
// ---------------------------------------------------------------------------

/// The message for a label that is not bracketed.
pub open spec fn malformed_bytes(label: Seq<char>) -> Seq<char> {
    "malformed bytes label '"@ + label + "'"@
}

/// The message for a piece that is not a byte.
pub open spec fn bad_byte(label: Seq<char>, e: IntError) -> Seq<char> {
    "bad byte in label '"@ + label + "': "@ + int_error_message(e)
}

/// How a piece of a byte-array label reads: its trimmed text as a `u8`.
pub open spec fn piece_byte(p: Seq<char>) -> Result<int, IntError> {
    parse_int(trim(p), false, 0, 255)
}

/// What `parse_bytes_label` gives for `label`: the pieces between the
/// brackets read as bytes, the first piece that does not read being
/// reported; blank brackets give no bytes.
pub open spec fn label_bytes(label: Seq<char>) -> Result<Seq<u8>, Seq<char>> {
    if !(label.len() >= 2 && label[0] == '[' && label.last() == ']') {
        Err(malformed_bytes(label))
    } else {
        let inner = label.subrange(1, label.len() - 1);
        let pieces = split_commas(inner);
        if trim(inner).len() == 0 {
            Ok(Seq::empty())
        } else if forall|j: int| 0 <= j < pieces.len() ==> (#[trigger] piece_byte(pieces[j])) is Ok {
            Ok(Seq::new(pieces.len(), |j: int| piece_byte(pieces[j])->Ok_0 as u8))
        } else {
            let j = choose|j: int|
                0 <= j < pieces.len() && (#[trigger] piece_byte(pieces[j])) is Err && forall|i: int|
                    0 <= i < j ==> (#[trigger] piece_byte(pieces[i])) is Ok;
            Err(bad_byte(label, piece_byte(pieces[j])->Err_0))
        }
    }
}

/// Reads the label Rust's `Debug` gives a byte slice (`[1, 2, 3]`, or
/// `[]`) back into the bytes.
pub fn parse_bytes_label(label: &str) -> (r: Result<Vec<u8>, ReifyError>)
    ensures
        match label_bytes(label@) {
            Ok(b) => r matches Ok(v) && v@ == b,
            Err(m) => r matches Err(e) && e@ == m,
        },
{
    let s = chars_of(label);
    let n = s.len();
    if !(n >= 2 && s[0] == '[' && s[n - 1] == ']') {
        return Err(ReifyError::msg(join3("malformed bytes label '", label, "'")));
    }
    let ghost inner = s@.subrange(1, n - 1);
    let (ta, tb) = trim_bounds(&s, 1, n - 1);
    if ta == tb {
        return Ok(Vec::new());
    }
    let ghost pieces = split_commas(inner);
    let mut out: Vec<u8> = Vec::new();
    let mut start: usize = 1;
    let mut i: usize = 1;
    assert(inner.take(0) =~= Seq::<char>::empty());
    assert(split_commas(inner.take(0)) =~= seq![Seq::<char>::empty()]);
    while i <= n - 1
        invariant
            1 <= start <= i <= n - 1 + 1,
            n == s@.len(),
            n >= 2,
            inner == s@.subrange(1, n - 1),
            pieces == split_commas(inner),
            label@ == s@,
            i <= n - 1 ==> split_commas(inner.take(i - 1)).last() == s@.subrange(start as int, i as int),
            i <= n - 1 ==> out@.len() == split_commas(inner.take(i - 1)).len() - 1,
            i > n - 1 ==> out@.len() == pieces.len(),
            out@.len() <= pieces.len(),
            s@[0] == '[',
            s@[n - 1] == ']',
            1 <= ta < tb <= n - 1,
            s@.subrange(ta as int, tb as int) == trim(inner),
            forall|j: int| 0 <= j < out@.len() ==> (#[trigger] piece_byte(pieces[j])) is Ok
                && out@[j] == piece_byte(pieces[j])->Ok_0 as u8,
        decreases n - i,
    {
        let ghost c = inner.take(i - 1);
        let ghost pp = split_commas(c);
        proof {
            lemma_split_commas_prefix(inner, i - 1);
            lemma_split_commas_len(c);
        }
        if i == n - 1 || s[i] == ',' {
            let (a, b) = trim_bounds(&s, start, i);
            let piece = slice_chars(&s, a, b);
            let ghost k = out@.len() as int;
            proof {
                if i == n - 1 {
                    assert(c =~= inner);
                    assert(pieces[k] == pp.last());
                } else {
                    let c2 = inner.take(i as int);
                    assert(c2 =~= c.push(s@[i as int]));
                    assert(c2.drop_last() =~= c);
                    assert(c2.last() == ',');
                    assert(split_commas(c2) == pp.push(Seq::empty()));
                    lemma_split_commas_prefix(inner, i as int);
                    assert(split_commas(c2)[k] == pp[k]);
                    assert(pieces[k] == split_commas(c2)[k]);
                }
                assert(pieces[k] == s@.subrange(start as int, i as int));
                assert(piece@ == trim(pieces[k]));
            }
            match crate::text::parse_unsigned(piece.as_slice(), 255) {
                Ok(v) => {
                    let ghost prev = out@;
                    out.push(v as u8);
                    assert(out@ == prev.push(v as u8));
                    proof {
                        if i == n - 1 {
                            assert(out@.len() == pieces.len());
                        } else {
                            let c2 = inner.take(i as int);
                            assert(split_commas(c2) == pp.push(Seq::empty()));
                            assert(split_commas(c2).last() == Seq::<char>::empty());
                            assert(s@.subrange(i + 1, i + 1) =~= Seq::<char>::empty());
                        }
                    }
                },
                Err(e) => {
                    let mut m = join3("bad byte in label '", label, "': ");
                    let em = e.message();
                    m.append(em.as_str());
                    proof {
                        assert(piece_byte(pieces[k]) == Err::<int, IntError>(e));
                        assert(s@.subrange(ta as int, tb as int).len() > 0);
                        assert(trim(inner).len() != 0);
                        let jj = choose|j: int|
                            0 <= j < pieces.len() && (#[trigger] piece_byte(pieces[j])) is Err && forall|x: int|
                                0 <= x < j ==> (#[trigger] piece_byte(pieces[x])) is Ok;
                        assert(0 <= k < pieces.len() && piece_byte(pieces[k]) is Err && forall|x: int|
                            0 <= x < k ==> (#[trigger] piece_byte(pieces[x])) is Ok);
                        if jj < k {
                            assert(piece_byte(pieces[jj]) is Ok);
                        }
                        if jj > k {
                            assert(piece_byte(pieces[k]) is Ok);
                        }
                        assert(jj == k);
                        assert(m@ == bad_byte(label@, e));
                    }
                    return Err(ReifyError::msg(m));
                },
            }
            start = i + 1;
        } else {
            proof {
                let c2 = inner.take(i as int);
                assert(c2 =~= c.push(s@[i as int]));
                assert(c2.drop_last() =~= c);
                assert(split_commas(c2) == pp.update(pp.len() - 1, pp.last().push(s@[i as int])));
                assert(s@.subrange(start as int, i + 1) =~= s@.subrange(start as int, i as int).push(s@[i as int]));
            }
        }
        i = i + 1;
    }
    proof {
        assert(s@.subrange(ta as int, tb as int).len() > 0);
        assert(trim(inner).len() != 0);
        assert(out@ =~= Seq::new(pieces.len(), |j: int| piece_byte(pieces[j])->Ok_0 as u8));
    }
    Ok(out)
}


// ---------------------------------------------------------------------------
// Byte-array labels read back what was written
// ---------------------------------------------------------------------------

proof fn lemma_digits_not_special(d: Seq<char>)
    requires
        all_digits(d),
    ensures
        forall|i: int| 0 <= i < d.len() ==> d[i] != ',' && !is_space(#[trigger] d[i]),
{
    assert forall|i: int| 0 <= i < d.len() implies d[i] != ',' && !is_space(#[trigger] d[i]) by {
        assert(is_digit(d[i]));
    }
}

proof fn lemma_trim_digits(p: Seq<char>, n: nat)
    requires
        p == Seq::<char>::empty() || p == seq![' '],
    ensures
        trim(p + decimal(n)) == decimal(n),
{
    let d = decimal(n);
    lemma_decimal_digits(n);
    lemma_digits_not_special(d);
    if p.len() == 1 {
        assert((p + d)[0] == ' ');
        assert((p + d).drop_first() =~= d);
    } else {
        assert(p + d =~= d);
    }
    assert(!is_space(d[0]));
    assert(trim_start(d) == d);
    assert(!is_space(d.last()));
}

proof fn lemma_split_bytes_items(p: Seq<char>, b: Seq<u8>)
    requires
        b.len() >= 1,
        p == Seq::<char>::empty() || p == seq![' '],
    ensures
        split_commas(p + bytes_items(b)).len() == b.len(),
        forall|j: int|
            0 <= j < b.len() ==> #[trigger] split_commas(p + bytes_items(b))[j] == (if j == 0 {
                p
            } else {
                seq![' ']
            }) + decimal(b[j] as nat),
    decreases b.len(),
{
    let d0 = decimal(b[0] as nat);
    lemma_decimal_digits(b[0] as nat);
    lemma_digits_not_special(d0);
    assert forall|i: int| 0 <= i < (p + d0).len() implies (p + d0)[i] != ',' by {
        if i >= p.len() {
            assert((p + d0)[i] == d0[i - p.len()]);
        }
    }
    lemma_split_commas_single(p + d0);
    if b.len() == 1 {
        assert(bytes_items(b) == d0);
    } else {
        let rest = b.drop_first();
        assert(p + bytes_items(b) =~= (p + d0) + seq![','] + (seq![' '] + bytes_items(rest)));
        lemma_split_commas_join(p + d0, seq![' '] + bytes_items(rest));
        lemma_split_bytes_items(seq![' '], rest);
        let whole = split_commas(p + bytes_items(b));
        assert forall|j: int| 0 <= j < b.len() implies #[trigger] whole[j] == (if j == 0 {
            p
        } else {
            seq![' ']
        }) + decimal(b[j] as nat) by {
            if j > 0 {
                assert(whole[j] == split_commas(seq![' '] + bytes_items(rest))[j - 1]);
                assert(rest[j - 1] == b[j]);
            }
        }
    }
}

/// Reading back the label of a byte array gives the byte array.
pub proof fn lemma_bytes_label_round_trip(b: Seq<u8>)
    ensures
        label_bytes(bytes_label(b)) == Ok::<Seq<u8>, Seq<char>>(b),
{
    let label = bytes_label(b);
    let inner = bytes_items(b);
    assert(label.subrange(1, label.len() - 1) =~= inner);
    assert(label.len() >= 2 && label[0] == '[' && label.last() == ']');
    if b.len() == 0 {
        assert(inner =~= Seq::<char>::empty());
        assert(trim(inner) =~= Seq::<char>::empty());
        assert(b =~= Seq::<u8>::empty());
        assert(label_bytes(label) == Ok::<Seq<u8>, Seq<char>>(Seq::empty()));
    } else {
        let pieces = split_commas(inner);
        lemma_split_bytes_items(Seq::empty(), b);
        assert(Seq::<char>::empty() + inner =~= inner);
        assert forall|j: int| 0 <= j < pieces.len() implies (#[trigger] piece_byte(pieces[j])) is Ok
            && piece_byte(pieces[j])->Ok_0 == b[j] by {
            if j == 0 {
                lemma_trim_digits(Seq::empty(), b[j] as nat);
            } else {
                lemma_trim_digits(seq![' '], b[j] as nat);
            }
            lemma_parse_decimal(b[j] as nat, 0, 255);
        }
        lemma_bytes_items_ends(b);
        lemma_decimal_digits(b[0] as nat);
        lemma_decimal_digits(b.last() as nat);
        assert(is_digit(decimal(b[0] as nat)[0]));
        assert(is_digit(decimal(b.last() as nat).last()));
        assert(!is_space(inner[0]));
        assert(trim_start(inner) == inner);
        assert(!is_space(inner.last()));
        assert(trim(inner) == inner);
        assert(Seq::new(pieces.len(), |j: int| piece_byte(pieces[j])->Ok_0 as u8) =~= b);
        assert(trim(label.subrange(1, label.len() - 1)).len() != 0);
        assert(forall|j: int| 0 <= j < pieces.len() ==> (#[trigger] piece_byte(pieces[j])) is Ok);
        assert(label_bytes(label) == Ok::<Seq<u8>, Seq<char>>(Seq::new(pieces.len(), |j: int| piece_byte(pieces[j])->Ok_0 as u8)));
    }
}

proof fn lemma_bytes_items_ends(b: Seq<u8>)
    requires
        b.len() >= 1,
    ensures
        bytes_items(b).len() >= 1,
        bytes_items(b)[0] == decimal(b[0] as nat)[0],
        bytes_items(b).last() == decimal(b.last() as nat).last(),
    decreases b.len(),
{
    lemma_decimal_digits(b[0] as nat);
    if b.len() > 1 {
        lemma_bytes_items_ends(b.drop_first());
        let d = decimal(b[0] as nat);
        let r = bytes_items(b.drop_first());
        assert((d + seq![',', ' '] + r)[0] == d[0]);
        assert((d + seq![',', ' '] + r).last() == r.last());
    }
}


// ---------------------------------------------------------------------------
// Names out of an atom
// ---------------------------------------------------------------------------

impl Index {
    /// The distinct relation names with a tuple out of `src`, in the order
    /// each first appears.
    pub fn relation_names(&self, src: &str) -> (r: Vec<String>)
        requires
            self.wf(),
        ensures
            strs(r@) == source_names(self@.edges, src@),
    {
        let ghost edges = self@.edges;
        let mut seen: Vec<String> = Vec::new();
        let mut i: usize = 0;
        assert(edges.take(0) =~= Seq::<EdgeView>::empty());
        assert(strs(seen@) =~= Seq::<Seq<char>>::empty());
        while i < self.edges.len()
            invariant
                i <= self.edges@.len(),
                edges == self@.edges,
                edges.len() == self.edges@.len(),
                edges_ok(edges),
                strs(seen@) == source_names(edges.take(i as int), src@),
            decreases self.edges.len() - i,
        {
            let e = &self.edges[i];
            assert(edges[i as int] == e@);
            assert(edges[i as int].atoms.len() >= 1);
            assert(e@.atoms[0] == e.atoms@[0]@);
            proof {
                lemma_outgoing_step(edges, i as int, src@, e@.name);
            }
            if same_text(e.atoms[0].as_str(), src) && !contains_text(&seen, e.name.as_str()) {
                let ghost names = strs(seen@);
                seen.push(e.name.clone());
                assert(strs(seen@) =~= names.push(e@.name));
            }
            i = i + 1;
        }
        assert(edges.take(i as int) =~= edges);
        seen
    }

    /// Whether some `idx` tuple out of `src` has three or more atoms.
    pub fn has_positional_tuple(&self, src: &str) -> (r: bool)
        requires
            self.wf(),
        ensures
            r == exists|j: int|
                0 <= j < outgoing(self@.edges, src@, "idx"@).len() && (#[trigger] outgoing(
                    self@.edges,
                    src@,
                    "idx"@,
                )[j]).len() >= 3,
    {
        let ghost edges = self@.edges;
        let ghost rel = "idx"@;
        let mut i: usize = 0;
        assert(edges.take(0) =~= Seq::<EdgeView>::empty());
        while i < self.edges.len()
            invariant
                i <= self.edges@.len(),
                edges == self@.edges,
                rel == "idx"@,
                edges.len() == self.edges@.len(),
                edges_ok(edges),
                forall|j: int|
                    0 <= j < outgoing(edges.take(i as int), src@, rel).len() ==> (#[trigger] outgoing(
                        edges.take(i as int),
                        src@,
                        rel,
                    )[j]).len() < 3,
            decreases self.edges.len() - i,
        {
            let e = &self.edges[i];
            assert(edges[i as int] == e@);
            assert(edges[i as int].atoms.len() >= 1);
            assert(e@.atoms[0] == e.atoms@[0]@);
            proof {
                lemma_outgoing_step(edges, i as int, src@, rel);
                lemma_outgoing_prefix(edges, i + 1, src@, rel);
            }
            if same_text(e.name.as_str(), "idx") && same_text(e.atoms[0].as_str(), src) {
                let ghost o = outgoing(edges.take(i + 1), src@, rel);
                let ghost k = o.len() - 1;
                assert(o[k] == e@.atoms);
                if e.atoms.len() >= 3 {
                    assert(outgoing(edges, src@, rel).take(o.len() as int)[k] == outgoing(edges, src@, rel)[k]);
                    assert(outgoing(edges, src@, rel)[k].len() >= 3);
                    return true;
                }
            }
            i = i + 1;
        }
        assert(edges.take(i as int) =~= edges);
        false
    }
}

// ---------------------------------------------------------------------------
// What an atom reads as
// ---------------------------------------------------------------------------

/// A scalar type a label can be read as.
#[derive(Clone, Copy, PartialEq, Eq, Structural)]
pub enum ScalarKind {
    Bool,
    I8,
    I16,
    I32,
    I64,
    I128,
    U8,
    U16,
    U32,
    U64,
    U128,
}

/// A scalar read from a label.
#[derive(Debug, Clone, Copy, PartialEq, Eq, Structural)]
pub enum Scalar {
    Bool(bool),
    Signed(i128),
    Unsigned(u128),
}

/// Whether a kind is a signed integer type, and its range.
pub open spec fn signed_range(k: ScalarKind) -> Option<(int, int)> {
    match k {
        ScalarKind::I8 => Some((i8::MIN as int, i8::MAX as int)),
        ScalarKind::I16 => Some((i16::MIN as int, i16::MAX as int)),
        ScalarKind::I32 => Some((i32::MIN as int, i32::MAX as int)),
        ScalarKind::I64 => Some((i64::MIN as int, i64::MAX as int)),
        ScalarKind::I128 => Some((i128::MIN as int, i128::MAX as int)),
        _ => None,
    }
}

/// The largest value of an unsigned kind.
pub open spec fn unsigned_max(k: ScalarKind) -> Option<int> {
    match k {
        ScalarKind::U8 => Some(u8::MAX as int),
        ScalarKind::U16 => Some(u16::MAX as int),
        ScalarKind::U32 => Some(u32::MAX as int),
        ScalarKind::U64 => Some(u64::MAX as int),
        ScalarKind::U128 => Some(u128::MAX as int),
        _ => None,
    }
}

/// What `str::parse` gives for `label` read as kind `k`: the value, or the
/// text of its error.
pub open spec fn read_scalar(k: ScalarKind, label: Seq<char>) -> Result<Scalar, Seq<char>> {
    if k == ScalarKind::Bool {
        if label == "true"@ {
            Ok(Scalar::Bool(true))
        } else if label == "false"@ {
            Ok(Scalar::Bool(false))
        } else {
            Err("provided string was not `true` or `false`"@)
        }
    } else if let Some((lo, hi)) = signed_range(k) {
        match parse_int(label, true, lo, hi) {
            Ok(v) => Ok(Scalar::Signed(v as i128)),
            Err(e) => Err(int_error_message(e)),
        }
    } else {
        match parse_int(label, false, 0, unsigned_max(k)->0) {
            Ok(v) => Ok(Scalar::Unsigned(v as u128)),
            Err(e) => Err(int_error_message(e)),
        }
    }
}

/// The label export writes for an integer reads back as that integer at
/// any width that holds it, and `true` and `false` read back as
/// themselves.
pub proof fn lemma_scalar_labels(k: ScalarKind, v: int, b: bool)
    ensures
        (signed_range(k) matches Some((lo, hi)) && lo <= v <= hi) ==> read_scalar(k, signed_decimal(v))
            == Ok::<Scalar, Seq<char>>(Scalar::Signed(v as i128)),
        (unsigned_max(k) matches Some(hi) && 0 <= v <= hi) ==> read_scalar(k, decimal(v as nat))
            == Ok::<Scalar, Seq<char>>(Scalar::Unsigned(v as u128)),
        read_scalar(ScalarKind::Bool, if b { "true"@ } else { "false"@ }) == Ok::<Scalar, Seq<char>>(
            Scalar::Bool(b),
        ),
{
    reveal_strlit("true");
    reveal_strlit("false");
    if let Some((lo, hi)) = signed_range(k) {
        if lo <= v <= hi {
            lemma_parse_signed_decimal(v, lo, hi);
        }
    }
    if let Some(hi) = unsigned_max(k) {
        if 0 <= v <= hi {
            lemma_parse_decimal(v as nat, 0, hi);
        }
    }
}

/// The message for a label that does not read as its type.
pub open spec fn unreadable(ty: Seq<char>, label: Seq<char>, reason: Seq<char>) -> Seq<char> {
    "could not parse "@ + ty + " label '"@ + label + "': "@ + reason
}

/// The error for an atom whose label does not read as its type, `reason`
/// being the parser's own message.
pub fn label_error(atom: &IAtom, reason: &str) -> (e: ReifyError)
    ensures
        e@ == unreadable(atom@.ty, atom@.label, reason@),
{
    let mut m = join4("could not parse ", atom.atom_type.as_str(), " label '", atom.label.as_str());
    m.append("': ");
    m.append(reason);
    ReifyError::msg(m)
}

fn read_scalar_exec(k: ScalarKind, label: &str) -> (r: Result<Scalar, String>)
    ensures
        match read_scalar(k, label@) {
            Ok(v) => r == Ok::<Scalar, String>(v),
            Err(m) => r matches Err(s) && s@ == m,
        },
{
    match k {
        ScalarKind::Bool => {
            if same_text(label, "true") {
                Ok(Scalar::Bool(true))
            } else if same_text(label, "false") {
                Ok(Scalar::Bool(false))
            } else {
                Err(String::from_str("provided string was not `true` or `false`"))
            }
        },
        ScalarKind::I8 | ScalarKind::I16 | ScalarKind::I32 | ScalarKind::I64 | ScalarKind::I128 => {
            let (lo, hi): (i128, i128) = match k {
                ScalarKind::I8 => (i8::MIN as i128, i8::MAX as i128),
                ScalarKind::I16 => (i16::MIN as i128, i16::MAX as i128),
                ScalarKind::I32 => (i32::MIN as i128, i32::MAX as i128),
                ScalarKind::I64 => (i64::MIN as i128, i64::MAX as i128),
                _ => (i128::MIN, i128::MAX),
            };
            let chars = chars_of(label);
            match parse_signed(chars.as_slice(), lo, hi) {
                Ok(v) => Ok(Scalar::Signed(v)),
                Err(e) => Err(e.message()),
            }
        },
        _ => {
            let hi: u128 = match k {
                ScalarKind::U8 => u8::MAX as u128,
                ScalarKind::U16 => u16::MAX as u128,
                ScalarKind::U32 => u32::MAX as u128,
                ScalarKind::U64 => u64::MAX as u128,
                _ => u128::MAX,
            };
            let chars = chars_of(label);
            match parse_unsigned(chars.as_slice(), hi) {
                Ok(v) => Ok(Scalar::Unsigned(v)),
                Err(e) => Err(e.message()),
            }
        },
    }
}

/// How `deserialize_option` reads an atom.
pub enum OptionShape {
    /// The `None` atom.
    Absent,
    /// A `Some` wrapper atom around `inner`.
    Wrapped { inner: String },
    /// Any other atom: an unwrapped `Some(x)`, the atom being `x`.
    Unwrapped,
}

/// The content of an [`OptionShape`].
pub enum OptionShapeView {
    Absent,
    Wrapped { inner: Seq<char> },
    Unwrapped,
}

impl View for OptionShape {
    type V = OptionShapeView;

    open spec fn view(&self) -> OptionShapeView {
        match self {
            OptionShape::Absent => OptionShapeView::Absent,
            OptionShape::Wrapped { inner } => OptionShapeView::Wrapped { inner: inner@ },
            OptionShape::Unwrapped => OptionShapeView::Unwrapped,
        }
    }
}

/// What an atom reads as when nothing says what to expect.
pub enum AnyShape {
    Bool,
    /// `i8` to `i64`, read as an `i64`.
    SmallSigned,
    Signed128,
    /// `u8` to `u64`, read as a `u64`.
    SmallUnsigned,
    Unsigned128,
    Float,
    Char,
    Str,
    Bytes,
    /// `unit` or a unit struct.
    Unit,
    Absent,
    /// A `Some` wrapper around `inner`.
    Wrapped { inner: String },
    /// A newtype struct around `inner`.
    Newtype { inner: String },
    /// A sequence, tuple or tuple struct.
    Sequence,
    Mapping,
    /// A struct: its type is its label.
    Struct,
    UnitVariant { variant: String },
    TupleVariant { variant: String },
    NewtypeVariant { variant: String, inner: String },
    StructVariant { variant: String },
}

/// The content of an [`AnyShape`].
pub enum AnyShapeView {
    Bool,
    SmallSigned,
    Signed128,
    SmallUnsigned,
    Unsigned128,
    Float,
    Char,
    Str,
    Bytes,
    Unit,
    Absent,
    Wrapped { inner: Seq<char> },
    Newtype { inner: Seq<char> },
    Sequence,
    Mapping,
    Struct,
    UnitVariant { variant: Seq<char> },
    TupleVariant { variant: Seq<char> },
    NewtypeVariant { variant: Seq<char>, inner: Seq<char> },
    StructVariant { variant: Seq<char> },
}

impl View for AnyShape {
    type V = AnyShapeView;

    open spec fn view(&self) -> AnyShapeView {
        match self {
            AnyShape::Bool => AnyShapeView::Bool,
            AnyShape::SmallSigned => AnyShapeView::SmallSigned,
            AnyShape::Signed128 => AnyShapeView::Signed128,
            AnyShape::SmallUnsigned => AnyShapeView::SmallUnsigned,
            AnyShape::Unsigned128 => AnyShapeView::Unsigned128,
            AnyShape::Float => AnyShapeView::Float,
            AnyShape::Char => AnyShapeView::Char,
            AnyShape::Str => AnyShapeView::Str,
            AnyShape::Bytes => AnyShapeView::Bytes,
            AnyShape::Unit => AnyShapeView::Unit,
            AnyShape::Absent => AnyShapeView::Absent,
            AnyShape::Wrapped { inner } => AnyShapeView::Wrapped { inner: inner@ },
            AnyShape::Newtype { inner } => AnyShapeView::Newtype { inner: inner@ },
            AnyShape::Sequence => AnyShapeView::Sequence,
            AnyShape::Mapping => AnyShapeView::Mapping,
            AnyShape::Struct => AnyShapeView::Struct,
            AnyShape::UnitVariant { variant } => AnyShapeView::UnitVariant { variant: variant@ },
            AnyShape::TupleVariant { variant } => AnyShapeView::TupleVariant { variant: variant@ },
            AnyShape::NewtypeVariant { variant, inner } => AnyShapeView::NewtypeVariant {
                variant: variant@,
                inner: inner@,
            },
            AnyShape::StructVariant { variant } => AnyShapeView::StructVariant { variant: variant@ },
        }
    }
}

/// The shape of the atom `id` of type `ty`, for the types export writes
/// itself; `None` for a struct or enum name.
pub open spec fn builtin_shape(ix: IndexView, id: Seq<char>, ty: Seq<char>) -> Option<
    Result<AnyShapeView, Seq<char>>,
> {
    if ty == "bool"@ {
        Some(Ok(AnyShapeView::Bool))
    } else if ty == "i8"@ || ty == "i16"@ || ty == "i32"@ || ty == "i64"@ {
        Some(Ok(AnyShapeView::SmallSigned))
    } else if ty == "i128"@ {
        Some(Ok(AnyShapeView::Signed128))
    } else if ty == "u8"@ || ty == "u16"@ || ty == "u32"@ || ty == "u64"@ {
        Some(Ok(AnyShapeView::SmallUnsigned))
    } else if ty == "u128"@ {
        Some(Ok(AnyShapeView::Unsigned128))
    } else if ty == "f32"@ || ty == "f64"@ {
        Some(Ok(AnyShapeView::Float))
    } else if ty == "char"@ {
        Some(Ok(AnyShapeView::Char))
    } else if ty == "string"@ {
        Some(Ok(AnyShapeView::Str))
    } else if ty == "bytes"@ {
        Some(Ok(AnyShapeView::Bytes))
    } else if ty == "unit"@ || ty == "unit_struct"@ {
        Some(Ok(AnyShapeView::Unit))
    } else if ty == "None"@ {
        Some(Ok(AnyShapeView::Absent))
    } else if ty == "Some"@ {
        Some(
            match target_of(ix, id, "value"@) {
                Some(t) => Ok(AnyShapeView::Wrapped { inner: t }),
                None => Err(relation_missing(id, "value"@)),
            },
        )
    } else if ty == "newtype_struct"@ {
        Some(
            match target_of(ix, id, "value"@) {
                Some(t) => Ok(AnyShapeView::Newtype { inner: t }),
                None => Err(relation_missing(id, "value"@)),
            },
        )
    } else if ty == "sequence"@ || ty == "tuple"@ || ty == "tuple_struct"@ {
        Some(Ok(AnyShapeView::Sequence))
    } else if ty == "map"@ {
        Some(Ok(AnyShapeView::Mapping))
    } else {
        None
    }
}

/// The shape of an atom whose type is a struct or enum name: a struct when
/// its label is its type, else a variant, told apart by what leaves it.
pub open spec fn named_shape(ix: IndexView, id: Seq<char>, a: AtomView) -> Result<
    AnyShapeView,
    Seq<char>,
> {
    let names = source_names(ix.edges, id);
    let idx = outgoing(ix.edges, id, "idx"@);
    if a.label == a.ty {
        Ok(AnyShapeView::Struct)
    } else if names.len() == 0 {
        Ok(AnyShapeView::UnitVariant { variant: a.label })
    } else if exists|j: int| 0 <= j < idx.len() && (#[trigger] idx[j]).len() >= 3 {
        Ok(AnyShapeView::TupleVariant { variant: a.label })
    } else if names == seq!["variant_value"@] {
        match target_of(ix, id, "variant_value"@) {
            Some(t) => Ok(AnyShapeView::NewtypeVariant { variant: a.label, inner: t }),
            None => Err(relation_missing(id, "variant_value"@)),
        }
    } else {
        Ok(AnyShapeView::StructVariant { variant: a.label })
    }
}

/// The shape of the atom `id`.
pub open spec fn any_shape_of(ix: IndexView, id: Seq<char>) -> Result<AnyShapeView, Seq<char>> {
    match find_atom(ix.atoms, id) {
        None => Err(atom_missing(id)),
        Some(i) => match builtin_shape(ix, id, ix.atoms[i].ty) {
            Some(r) => r,
            None => named_shape(ix, id, ix.atoms[i]),
        },
    }
}

/// How `deserialize_option` reads the atom `id`.
pub open spec fn option_shape_of(ix: IndexView, id: Seq<char>) -> Result<OptionShapeView, Seq<char>> {
    match find_atom(ix.atoms, id) {
        None => Err(atom_missing(id)),
        Some(i) => if ix.atoms[i].ty == "None"@ {
            Ok(OptionShapeView::Absent)
        } else if ix.atoms[i].ty == "Some"@ {
            match target_of(ix, id, "value"@) {
                Some(t) => Ok(OptionShapeView::Wrapped { inner: t }),
                None => Err(relation_missing(id, "value"@)),
            }
        } else {
            Ok(OptionShapeView::Unwrapped)
        },
    }
}

/// What a label reads as for `deserialize_char`: its first character.
pub open spec fn first_char(label: Seq<char>) -> Result<char, Seq<char>> {
    if label.len() > 0 {
        Ok(label[0])
    } else {
        Err("empty char label"@)
    }
}

/// A reconstruction standing on one atom of an index.
pub struct NodeDeserializer<'i> {
    index: &'i Index,
    atom_id: String,
}

impl<'i> NodeDeserializer<'i> {
    /// The reconstruction's index.
    pub closed spec fn spec_index(&self) -> IndexView {
        self.index@
    }

    /// The id of the atom it stands on.
    pub closed spec fn spec_atom_id(&self) -> Seq<char> {
        self.atom_id@
    }

    /// Whether the index is well formed.
    pub closed spec fn wf(&self) -> bool {
        self.index.wf()
    }

    /// Stands on the atom `atom_id` of `index`.
    pub fn new(index: &'i Index, atom_id: String) -> (r: NodeDeserializer<'i>)
        requires
            index.wf(),
        ensures
            r.wf(),
            r.spec_index() == index@,
            r.spec_atom_id() == atom_id@,
    {
        NodeDeserializer { index, atom_id }
    }

    /// The index.
    pub fn index(&self) -> (r: &'i Index)
        ensures
            r@ == self.spec_index(),
            self.wf() ==> r.wf(),
    {
        self.index
    }

    /// The id of the atom it stands on.
    pub fn atom_id(&self) -> (r: &str)
        ensures
            r@ == self.spec_atom_id(),
    {
        self.atom_id.as_str()
    }

    /// The atom it stands on.
    pub fn atom(&self) -> (r: Result<&'i IAtom, ReifyError>)
        ensures
            match find_atom(self.spec_index().atoms, self.spec_atom_id()) {
                Some(i) => r matches Ok(a) && a@ == self.spec_index().atoms[i],
                None => r matches Err(e) && e@ == atom_missing(self.spec_atom_id()),
            },
    {
        self.index.atom(self.atom_id.as_str())
    }

    /// The same index, standing on the atom `id`.
    pub fn child(&self, id: String) -> (r: NodeDeserializer<'i>)
        ensures
            r.spec_index() == self.spec_index(),
            r.spec_atom_id() == id@,
            r.wf() == self.wf(),
    {
        NodeDeserializer { index: self.index, atom_id: id }
    }

    /// The atom's label read as a scalar of kind `kind`.
    pub fn parse(&self, kind: ScalarKind) -> (r: Result<Scalar, ReifyError>)
        ensures
            match find_atom(self.spec_index().atoms, self.spec_atom_id()) {
                None => r matches Err(e) && e@ == atom_missing(self.spec_atom_id()),
                Some(i) => {
                    let a = self.spec_index().atoms[i];
                    match read_scalar(kind, a.label) {
                        Ok(v) => r matches Ok(x) && x == v,
                        Err(m) => r matches Err(e) && e@ == unreadable(a.ty, a.label, m),
                    }
                },
            },
    {
        let a = self.atom()?;
        match read_scalar_exec(kind, a.label.as_str()) {
            Ok(v) => Ok(v),
            Err(m) => Err(label_error(a, m.as_str())),
        }
    }

    /// The atom's label read as a `char`: its first character.
    pub fn parse_char(&self) -> (r: Result<char, ReifyError>)
        ensures
            match find_atom(self.spec_index().atoms, self.spec_atom_id()) {
                None => r matches Err(e) && e@ == atom_missing(self.spec_atom_id()),
                Some(i) => match first_char(self.spec_index().atoms[i].label) {
                    Ok(c) => r == Ok::<char, ReifyError>(c),
                    Err(m) => r matches Err(e) && e@ == m,
                },
            },
    {
        let a = self.atom()?;
        let chars = chars_of(a.label.as_str());
        if chars.len() > 0 {
            Ok(chars[0])
        } else {
            Err(ReifyError::msg(String::from_str("empty char label")))
        }
    }

    /// The atom's label read as a byte array.
    pub fn parse_bytes(&self) -> (r: Result<Vec<u8>, ReifyError>)
        ensures
            match find_atom(self.spec_index().atoms, self.spec_atom_id()) {
                None => r matches Err(e) && e@ == atom_missing(self.spec_atom_id()),
                Some(i) => match label_bytes(self.spec_index().atoms[i].label) {
                    Ok(b) => r matches Ok(v) && v@ == b,
                    Err(m) => r matches Err(e) && e@ == m,
                },
            },
    {
        let a = self.atom()?;
        parse_bytes_label(a.label.as_str())
    }

    /// How `deserialize_option` reads the atom.
    pub fn option_shape(&self) -> (r: Result<OptionShape, ReifyError>)
        requires
            self.wf(),
        ensures
            match option_shape_of(self.spec_index(), self.spec_atom_id()) {
                Ok(s) => r matches Ok(x) && x@ == s,
                Err(m) => r matches Err(e) && e@ == m,
            },
    {
        let a = self.atom()?;
        if same_text(a.atom_type.as_str(), "None") {
            Ok(OptionShape::Absent)
        } else if same_text(a.atom_type.as_str(), "Some") {
            let inner = self.index.single_target(self.atom_id.as_str(), "value")?;
            Ok(OptionShape::Wrapped { inner })
        } else {
            Ok(OptionShape::Unwrapped)
        }
    }

    fn named_shape(&self, a: &IAtom) -> (r: Result<AnyShape, ReifyError>)
        requires
            self.wf(),
        ensures
            match named_shape(self.spec_index(), self.spec_atom_id(), a@) {
                Ok(s) => r matches Ok(x) && x@ == s,
                Err(m) => r matches Err(e) && e@ == m,
            },
    {
        if same_text(a.label.as_str(), a.atom_type.as_str()) {
            return Ok(AnyShape::Struct);
        }
        let names = self.index.relation_names(self.atom_id.as_str());
        if names.len() == 0 {
            return Ok(AnyShape::UnitVariant { variant: a.label.clone() });
        }
        if self.index.has_positional_tuple(self.atom_id.as_str()) {
            return Ok(AnyShape::TupleVariant { variant: a.label.clone() });
        }
        if names.len() == 1 && same_text(names[0].as_str(), "variant_value") {
            assert(strs(names@) =~= seq!["variant_value"@]);
            let inner = self.index.single_target(self.atom_id.as_str(), "variant_value")?;
            return Ok(AnyShape::NewtypeVariant { variant: a.label.clone(), inner });
        }
        assert(strs(names@) != seq!["variant_value"@]) by {
            if strs(names@) == seq!["variant_value"@] {
                assert(strs(names@)[0] == names@[0]@);
            }
        }
        Ok(AnyShape::StructVariant { variant: a.label.clone() })
    }

    /// What the atom reads as when nothing says what to expect: a
    /// built-in type by its type name, otherwise a struct or a variant.
    pub fn any_shape(&self) -> (r: Result<AnyShape, ReifyError>)
        requires
            self.wf(),
        ensures
            match any_shape_of(self.spec_index(), self.spec_atom_id()) {
                Ok(s) => r matches Ok(x) && x@ == s,
                Err(m) => r matches Err(e) && e@ == m,
            },
    {
        let a = self.atom()?;
        let ty = a.atom_type.as_str();
        if same_text(ty, "bool") {
            Ok(AnyShape::Bool)
        } else if same_text(ty, "i8") || same_text(ty, "i16") || same_text(ty, "i32") || same_text(ty, "i64") {
            Ok(AnyShape::SmallSigned)
        } else if same_text(ty, "i128") {
            Ok(AnyShape::Signed128)
        } else if same_text(ty, "u8") || same_text(ty, "u16") || same_text(ty, "u32") || same_text(ty, "u64") {
            Ok(AnyShape::SmallUnsigned)
        } else if same_text(ty, "u128") {
            Ok(AnyShape::Unsigned128)
        } else if same_text(ty, "f32") || same_text(ty, "f64") {
            Ok(AnyShape::Float)
        } else if same_text(ty, "char") {
            Ok(AnyShape::Char)
        } else if same_text(ty, "string") {
            Ok(AnyShape::Str)
        } else if same_text(ty, "bytes") {
            Ok(AnyShape::Bytes)
        } else if same_text(ty, "unit") || same_text(ty, "unit_struct") {
            Ok(AnyShape::Unit)
        } else if same_text(ty, "None") {
            Ok(AnyShape::Absent)
        } else if same_text(ty, "Some") {
            let inner = self.index.single_target(self.atom_id.as_str(), "value")?;
            Ok(AnyShape::Wrapped { inner })
        } else if same_text(ty, "newtype_struct") {
            let inner = self.index.single_target(self.atom_id.as_str(), "value")?;
            Ok(AnyShape::Newtype { inner })
        } else if same_text(ty, "sequence") || same_text(ty, "tuple") || same_text(ty, "tuple_struct") {
            Ok(AnyShape::Sequence)
        } else if same_text(ty, "map") {
            Ok(AnyShape::Mapping)
        } else {
            self.named_shape(a)
        }
    }
}

impl Index {
    /// A reconstruction standing on the atom `root_id`, which must exist.
    pub fn root(&self, root_id: &str) -> (r: Result<NodeDeserializer<'_>, ReifyError>)
        requires
            self.wf(),
        ensures
            match find_atom(self@.atoms, root_id@) {
                Some(_) => r matches Ok(n) && n.wf() && n.spec_index() == self@ && n.spec_atom_id()
                    == root_id@,
                None => r matches Err(e) && e@ == root_missing(root_id@),
            },
    {
        match self.atom_index(root_id) {
            Some(_) => Ok(NodeDeserializer::new(self, String::from_str(root_id))),
            None => Err(ReifyError::msg(concat("root atom not found: ", root_id))),
        }
    }
}

/// The message for a missing root atom.
pub open spec fn root_missing(id: Seq<char>) -> Seq<char> {
    "root atom not found: "@ + id
}


// ---------------------------------------------------------------------------
// An externally tagged variant read without a target type
// ---------------------------------------------------------------------------

/// The payload of a variant read as the one-entry map `{variant: payload}`.
pub enum VariantPayload<'i> {
    /// `Variant(x)`: the payload is the atom `x`.
    Newtype(NodeDeserializer<'i>),
    /// `Variant(a, b)`: the payload is the variant atom's `idx` elements.
    Tuple(&'i Index, String),
    /// `Variant { a, b }`: the payload is the variant atom's fields.
    Struct(&'i Index, String),
}

/// A map of exactly one entry, keyed by a variant name.
pub struct OneEntry<'i> {
    key: Option<String>,
    value: VariantPayload<'i>,
}

impl<'i> OneEntry<'i> {
    /// The key, while it has not been taken.
    pub closed spec fn spec_key(&self) -> Option<Seq<char>> {
        match self.key {
            Some(k) => Some(k@),
            None => None,
        }
    }

    /// The payload.
    pub closed spec fn spec_value(&self) -> VariantPayload<'i> {
        self.value
    }

    /// The one entry `key: value`.
    pub fn new(key: String, value: VariantPayload<'i>) -> (r: OneEntry<'i>)
        ensures
            r.spec_key() == Some(key@),
            r.spec_value() == value,
    {
        OneEntry { key: Some(key), value }
    }

    /// Takes the key: the first call gives it, later calls give `None`.
    pub fn take_key(&mut self) -> (r: Option<String>)
        ensures
            match old(self).spec_key() {
                Some(k) => r matches Some(x) && x@ == k,
                None => r is None,
            },
            final(self).spec_key() is None,
            final(self).spec_value() == old(self).spec_value(),
    {
        self.key.take()
    }

    /// The payload.
    pub fn value(&self) -> (r: &VariantPayload<'i>)
        ensures
            *r == self.spec_value(),
    {
        &self.value
    }

    /// How many entries remain: one until the key is taken.
    pub fn remaining(&self) -> (r: usize)
        ensures
            r == (if self.spec_key() is Some { 1usize } else { 0usize }),
    {
        match &self.key {
            Some(_) => 1,
            None => 0,
        }
    }
}

} // verus!
