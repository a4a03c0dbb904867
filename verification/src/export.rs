//! Relationalization: the state a serde walk over a value builds up, one
//! serde category at a time, and the instance it finishes into.
//!
//! Each value becomes an atom and its parts become relation tuples on that
//! atom:
//!
//! | Serde shape                         | Tuples                               |
//! |-------------------------------------|--------------------------------------|
//! | struct / struct variant field `f`   | `f(parent, value)`                   |
//! | seq, tuple, tuple struct/variant    | `idx(container, position, element)` |
//! | map                                 | `map_entry(map, key, value)`         |
//! | newtype struct, `Some` wrapper      | `value(wrapper, inner)`              |
//! | newtype variant                     | `variant_value(variant, inner)`      |
//!
//! Equal scalars of one type share an atom, keyed by type and label (floats
//! by bit pattern; a NaN is never shared), as do unit values, unit structs,
//! unit variants and `None`. Positions are ordinary `u64` atoms. Tuples are
//! filed into records keyed by the source atom's type and the relation name;
//! records come out in the order each was first used.

use vstd::prelude::*;
use crate::annotations::{
    empty_decorators, merged, opt_str, own_opt, DecoratorsView,
    SpytialDecorators,
};
use crate::jsondata::{
    copy_strings, strs, AtomView, IAtom, IRelation, ITuple, InstanceView, JsonDataInstance,
    RelationView, TupleView,
};
use crate::relation_id::{lemma_relation_id_injective, make_relation_id, relation_id};
use crate::text::{
    decimal, format_signed, format_unsigned, lemma_decimal_injective, push_char, same_text,
    signed_decimal,
};

verus! {

// ---------------------------------------------------------------------------
// The abstract state
// ---------------------------------------------------------------------------

/// An entry of the interning table: the key of a shared atom and its id.
pub struct InternView {
    pub ty: Seq<char>,
    pub label: Seq<char>,
    pub bits: Option<u64>,
    pub id: Seq<char>,
}

/// A relation record under construction.
pub struct RecordView {
    pub source: Seq<char>,
    pub name: Seq<char>,
    pub tuples: Seq<TupleView>,
}

/// Everything a relationalization has built so far.
pub struct RelState {
    pub atoms: Seq<AtomView>,
    pub records: Seq<RecordView>,
    pub interned: Seq<InternView>,
    pub collected: DecoratorsView,
    pub visited: Seq<Seq<char>>,
    pub exclude: Option<Seq<char>>,
}

/// The content of decorators that may be absent.
pub open spec fn opt_decorators(d: Option<SpytialDecorators>) -> Option<DecoratorsView> {
    match d {
        Some(x) => Some(x@),
        None => None,
    }
}

/// The id of the atom created `k`-th (from zero): `atom0`, `atom1`, ...
pub open spec fn atom_id(k: nat) -> Seq<char> {
    "atom"@ + decimal(k)
}

/// Whether `id` names an atom of `s`.
pub open spec fn has_atom(s: RelState, id: Seq<char>) -> bool {
    exists|i: int| 0 <= i < s.atoms.len() && s.atoms[i].id == id
}

/// Whether `s` has an atom with id `id` and type `ty`.
pub open spec fn has_typed_atom(s: RelState, id: Seq<char>, ty: Seq<char>) -> bool {
    exists|i: int| 0 <= i < s.atoms.len() && s.atoms[i].id == id && s.atoms[i].ty == ty
}

/// Index of the last atom of `atoms` with id `id`.
pub open spec fn find_atom(atoms: Seq<AtomView>, id: Seq<char>) -> Option<int>
    decreases atoms.len(),
{
    if atoms.len() == 0 {
        None
    } else if atoms.last().id == id {
        Some(atoms.len() - 1)
    } else {
        find_atom(atoms.drop_last(), id)
    }
}

/// Index of the interning entry with the given key.
pub open spec fn find_interned(t: Seq<InternView>, ty: Seq<char>, label: Seq<char>, bits: Option<
    u64,
>) -> Option<int>
    decreases t.len(),
{
    if t.len() == 0 {
        None
    } else if t.last().ty == ty && t.last().label == label && t.last().bits == bits {
        Some(t.len() - 1)
    } else {
        find_interned(t.drop_last(), ty, label, bits)
    }
}

/// Index of the record of relation `name` from atoms of type `source`.
pub open spec fn find_record(r: Seq<RecordView>, source: Seq<char>, name: Seq<char>) -> Option<int>
    decreases r.len(),
{
    if r.len() == 0 {
        None
    } else if r.last().source == source && r.last().name == name {
        Some(r.len() - 1)
    } else {
        find_record(r.drop_last(), source, name)
    }
}

/// The state at the start: nothing built, and decorators to be gathered for
/// every struct type except `exclude`.
pub open spec fn start_state(exclude: Option<Seq<char>>) -> RelState {
    RelState {
        atoms: Seq::empty(),
        records: Seq::empty(),
        interned: Seq::empty(),
        collected: empty_decorators(),
        visited: Seq::empty(),
        exclude,
    }
}

/// A new atom of type `ty` labelled `label`, and its id.
pub open spec fn step_emit(s: RelState, ty: Seq<char>, label: Seq<char>) -> (RelState, Seq<char>) {
    let id = atom_id(s.atoms.len());
    (RelState { atoms: s.atoms.push(AtomView { id, ty, label }), ..s }, id)
}

/// The shared atom of type `ty` labelled `label` (a float's also keyed by
/// `bits`): the one made earlier for the same key, or a new one.
pub open spec fn step_intern(s: RelState, ty: Seq<char>, label: Seq<char>, bits: Option<u64>) -> (
    RelState,
    Seq<char>,
) {
    match find_interned(s.interned, ty, label, bits) {
        Some(i) => (s, s.interned[i].id),
        None => {
            let (s2, id) = step_emit(s, ty, label);
            (RelState { interned: s2.interned.push(InternView { ty, label, bits, id }), ..s2 }, id)
        },
    }
}

/// `s` with tuple `t` of relation `name` filed into the record of its
/// source type, which is created at the end when first used.
pub open spec fn step_add_tuple(s: RelState, name: Seq<char>, t: TupleView) -> RelState {
    let source = t.types[0];
    match find_record(s.records, source, name) {
        Some(i) => RelState {
            records: s.records.update(
                i,
                RecordView { tuples: s.records[i].tuples.push(t), ..s.records[i] },
            ),
            ..s
        },
        None => RelState {
            records: s.records.push(RecordView { source, name, tuples: seq![t] }),
            ..s
        },
    }
}

/// `Some(x)`: the atom of `x` itself, unless that atom is a `None` or a
/// `Some`, in which case a new `Some` atom pointing at it by `value`.
pub open spec fn step_some(s: RelState, inner: Seq<char>) -> (RelState, Seq<char>) {
    let optionish = match find_atom(s.atoms, inner) {
        Some(i) => s.atoms[i].ty == "None"@ || s.atoms[i].ty == "Some"@,
        None => false,
    };
    if optionish {
        let (s2, id) = step_emit(s, "Some"@, "Some"@);
        (
            step_add_tuple(
                s2,
                "value"@,
                TupleView { atoms: seq![id, inner], types: seq!["Some"@, "atom"@] },
            ),
            id,
        )
    } else {
        (s, inner)
    }
}

/// `s` after a struct of type `name` was seen while `registered` was what
/// the decorator registry held for `name`: those decorators are gathered
/// once per type, unless `name` is excluded.
pub open spec fn step_collect(s: RelState, name: Seq<char>, registered: Option<DecoratorsView>) -> RelState {
    if s.exclude == Some(name) || s.visited.contains(name) {
        s
    } else {
        let s2 = RelState { visited: s.visited.push(name), ..s };
        match registered {
            Some(d) => RelState { collected: merged(s.collected, d), ..s2 },
            None => s2,
        }
    }
}

/// The tuple `field(parent, child)`.
pub open spec fn field_tuple(parent: Seq<char>, parent_type: Seq<char>, child: Seq<char>) -> TupleView {
    TupleView { atoms: seq![parent, child], types: seq![parent_type, "atom"@] }
}

/// The tuple `idx(container, position, element)`.
pub open spec fn index_tuple(
    container: Seq<char>,
    container_type: Seq<char>,
    position: Seq<char>,
    element: Seq<char>,
) -> TupleView {
    TupleView {
        atoms: seq![container, position, element],
        types: seq![container_type, "u64"@, "atom"@],
    }
}

/// The tuple `map_entry(map, key, value)`.
pub open spec fn entry_tuple(map: Seq<char>, key: Seq<char>, value: Seq<char>) -> TupleView {
    TupleView { atoms: seq![map, key, value], types: seq!["map"@, "atom"@, "atom"@] }
}

/// `s` after element `element` at `position` of a positional container:
/// the position's shared `u64` atom, then the `idx` tuple.
pub open spec fn step_element(
    s: RelState,
    container: Seq<char>,
    container_type: Seq<char>,
    position: nat,
    element: Seq<char>,
) -> RelState {
    let (s2, p) = step_intern(s, "u64"@, decimal(position), None);
    step_add_tuple(s2, "idx"@, index_tuple(container, container_type, p, element))
}

// ---------------------------------------------------------------------------
// Finishing: headers and tuple order
// ---------------------------------------------------------------------------

/// The largest arity among `ts`.
pub open spec fn max_arity(ts: Seq<TupleView>) -> nat
    decreases ts.len(),
{
    if ts.len() == 0 {
        0
    } else {
        let m = max_arity(ts.drop_last());
        if ts.last().types.len() > m {
            ts.last().types.len()
        } else {
            m
        }
    }
}

/// Index of the first tuple with a position `k`.
pub open spec fn first_with(ts: Seq<TupleView>, k: int) -> int
    decreases ts.len(),
{
    if ts.len() == 0 {
        0
    } else if ts[0].types.len() > k {
        0
    } else {
        1 + first_with(ts.drop_first(), k)
    }
}

/// The type of position `k` of a record: the type every tuple long enough
/// gives it, or `atom` when they differ.
pub open spec fn header_at(ts: Seq<TupleView>, k: int) -> Seq<char> {
    let w = ts[first_with(ts, k)].types[k];
    if forall|j: int| 0 <= j < ts.len() && ts[j].types.len() > k ==> #[trigger] ts[j].types[k] == w {
        w
    } else {
        "atom"@
    }
}

/// A record's header: one type per position of its longest tuple.
pub open spec fn header(ts: Seq<TupleView>) -> Seq<Seq<char>> {
    Seq::new(max_arity(ts), |k: int| header_at(ts, k))
}

/// Whether a tuple has the record's largest arity.
pub open spec fn is_longest(ts: Seq<TupleView>) -> spec_fn(TupleView) -> bool {
    |t: TupleView| t.types.len() == max_arity(ts)
}

/// Whether a tuple is shorter than the record's largest arity.
pub open spec fn is_shorter(ts: Seq<TupleView>) -> spec_fn(TupleView) -> bool {
    |t: TupleView| t.types.len() != max_arity(ts)
}

/// A record's tuples with the longest first, each group in creation order.
pub open spec fn longest_first(ts: Seq<TupleView>) -> Seq<TupleView> {
    ts.filter(is_longest(ts)) + ts.filter(is_shorter(ts))
}

/// The finished form of a record.
pub open spec fn finished_record(r: RecordView) -> RelationView {
    RelationView {
        id: relation_id(r.source, r.name),
        name: r.name,
        types: header(r.tuples),
        tuples: longest_first(r.tuples),
    }
}

/// The instance a relationalization finishes into.
pub open spec fn finished(s: RelState) -> InstanceView {
    InstanceView { atoms: s.atoms, relations: s.records.map_values(|r: RecordView| finished_record(r)) }
}

// ---------------------------------------------------------------------------
// Well-formedness
// ---------------------------------------------------------------------------

/// Every position of `t` names an atom of `s`, its first type is `source`
/// and so is the type of its source atom, and it has at most three
/// positions.
pub open spec fn tuple_ok(s: RelState, source: Seq<char>, t: TupleView) -> bool {
    &&& t.atoms.len() == t.types.len()
    &&& 1 <= t.types.len() <= 3
    &&& t.types[0] == source
    &&& has_typed_atom(s, t.atoms[0], source)
    &&& forall|k: int| 0 <= k < t.atoms.len() ==> has_atom(s, #[trigger] t.atoms[k])
}

/// Some atom of `s` is the one the interning entry `e` names, with the
/// entry's type and label.
pub open spec fn interned_atom(s: RelState, e: InternView) -> bool {
    exists|j: int|
        0 <= j < s.atoms.len() && s.atoms[j] == (AtomView { id: e.id, ty: e.ty, label: e.label })
}

/// The invariant a relationalization keeps.
pub open spec fn state_ok(s: RelState) -> bool {
    &&& forall|i: int| 0 <= i < s.atoms.len() ==> #[trigger] s.atoms[i].id == atom_id(i as nat)
    &&& forall|i: int|
        0 <= i < s.interned.len() ==> has_atom(s, #[trigger] s.interned[i].id)
    &&& forall|i: int|
        0 <= i < s.interned.len() ==> interned_atom(s, #[trigger] s.interned[i])
    &&& forall|i: int, j: int|
        0 <= i < j < s.interned.len() ==> #[trigger] s.interned[i].id != #[trigger] s.interned[j].id
    &&& forall|i: int, j: int|
        0 <= i < j < s.interned.len() ==> !(#[trigger] s.interned[i].ty == #[trigger] s.interned[j].ty
            && s.interned[i].label == s.interned[j].label && s.interned[i].bits
            == s.interned[j].bits)
    &&& forall|i: int, j: int|
        0 <= i < j < s.records.len() ==> !(#[trigger] s.records[i].source
            == #[trigger] s.records[j].source && s.records[i].name == s.records[j].name)
    &&& forall|i: int|
        0 <= i < s.records.len() ==> #[trigger] s.records[i].tuples.len() >= 1
    &&& forall|i: int, j: int|
        0 <= i < s.records.len() && 0 <= j < s.records[i].tuples.len() ==> tuple_ok(
            s,
            s.records[i].source,
            #[trigger] s.records[i].tuples[j],
        )
}

// ---------------------------------------------------------------------------
// Lemmas on the spec functions
// ---------------------------------------------------------------------------

pub proof fn lemma_find_atom(atoms: Seq<AtomView>, id: Seq<char>)
    ensures
        match find_atom(atoms, id) {
            Some(i) => 0 <= i < atoms.len() && atoms[i].id == id,
            None => forall|j: int| 0 <= j < atoms.len() ==> atoms[j].id != id,
        },
    decreases atoms.len(),
{
    if atoms.len() > 0 && atoms.last().id != id {
        lemma_find_atom(atoms.drop_last(), id);
        assert forall|j: int| 0 <= j < atoms.len() - 1 implies atoms.drop_last()[j] == atoms[j] by {}
    }
}

pub proof fn lemma_find_interned(t: Seq<InternView>, ty: Seq<char>, label: Seq<char>, bits: Option<
    u64,
>)
    ensures
        match find_interned(t, ty, label, bits) {
            Some(i) => 0 <= i < t.len() && t[i].ty == ty && t[i].label == label && t[i].bits == bits,
            None => forall|j: int|
                0 <= j < t.len() ==> !(t[j].ty == ty && t[j].label == label && t[j].bits == bits),
        },
    decreases t.len(),
{
    if t.len() > 0 && !(t.last().ty == ty && t.last().label == label && t.last().bits == bits) {
        lemma_find_interned(t.drop_last(), ty, label, bits);
        assert forall|j: int| 0 <= j < t.len() - 1 implies t.drop_last()[j] == t[j] by {}
    }
}

pub proof fn lemma_find_record(r: Seq<RecordView>, source: Seq<char>, name: Seq<char>)
    ensures
        match find_record(r, source, name) {
            Some(i) => 0 <= i < r.len() && r[i].source == source && r[i].name == name,
            None => forall|j: int| 0 <= j < r.len() ==> !(r[j].source == source && r[j].name == name),
        },
    decreases r.len(),
{
    if r.len() > 0 && !(r.last().source == source && r.last().name == name) {
        lemma_find_record(r.drop_last(), source, name);
        assert forall|j: int| 0 <= j < r.len() - 1 implies r.drop_last()[j] == r[j] by {}
    }
}

/// Atom ids never repeat.
pub proof fn lemma_atom_id_injective(a: nat, b: nat)
    requires
        atom_id(a) == atom_id(b),
    ensures
        a == b,
{
    reveal_strlit("atom");
    assert(decimal(a) =~= atom_id(a).skip(4));
    assert(decimal(b) =~= atom_id(b).skip(4));
    lemma_decimal_injective(a, b);
}

pub(crate) proof fn lemma_has_atom_grows(s: RelState, t: RelState, id: Seq<char>)
    requires
        has_atom(s, id),
        s.atoms.len() <= t.atoms.len(),
        forall|i: int| 0 <= i < s.atoms.len() ==> t.atoms[i] == s.atoms[i],
    ensures
        has_atom(t, id),
{
    let i = choose|i: int| 0 <= i < s.atoms.len() && s.atoms[i].id == id;
    assert(t.atoms[i].id == id);
}

pub(crate) proof fn lemma_emit_ok(s: RelState, ty: Seq<char>, label: Seq<char>)
    requires
        state_ok(s),
    ensures
        state_ok(step_emit(s, ty, label).0),
        has_atom(step_emit(s, ty, label).0, step_emit(s, ty, label).1),
        forall|id: Seq<char>| has_atom(s, id) ==> has_atom(step_emit(s, ty, label).0, id),
        forall|id: Seq<char>, aty: Seq<char>|
            has_typed_atom(s, id, aty) ==> #[trigger] has_typed_atom(step_emit(s, ty, label).0, id, aty),
        has_typed_atom(step_emit(s, ty, label).0, step_emit(s, ty, label).1, ty),
{
    let (t, id) = step_emit(s, ty, label);
    assert(t.atoms[s.atoms.len() as int].id == id);
    assert(t.atoms[s.atoms.len() as int].ty == ty);
    assert forall|x: Seq<char>| has_atom(s, x) implies has_atom(t, x) by {
        lemma_has_atom_grows(s, t, x);
    }
    assert forall|x: Seq<char>, aty: Seq<char>| has_typed_atom(s, x, aty) implies #[trigger] has_typed_atom(
        t,
        x,
        aty,
    ) by {
        let w = choose|w: int| 0 <= w < s.atoms.len() && s.atoms[w].id == x && s.atoms[w].ty == aty;
        assert(t.atoms[w] == s.atoms[w]);
    }
    assert forall|i: int| 0 <= i < t.interned.len() implies has_atom(t, #[trigger] t.interned[i].id) by {
        assert(has_atom(s, s.interned[i].id));
    }
    assert forall|i: int| 0 <= i < t.interned.len() implies interned_atom(t, #[trigger] t.interned[i]) by {
        assert(interned_atom(s, s.interned[i]));
        let j = choose|j: int|
            0 <= j < s.atoms.len() && s.atoms[j] == (AtomView {
                id: s.interned[i].id,
                ty: s.interned[i].ty,
                label: s.interned[i].label,
            });
        assert(t.atoms[j] == s.atoms[j]);
    }
    assert forall|i: int, j: int|
        0 <= i < t.records.len() && 0 <= j < t.records[i].tuples.len() implies tuple_ok(
        t,
        t.records[i].source,
        #[trigger] t.records[i].tuples[j],
    ) by {
        let tu = t.records[i].tuples[j];
        assert(tuple_ok(s, s.records[i].source, tu));
        assert(has_typed_atom(t, tu.atoms[0], s.records[i].source));
        assert forall|k: int| 0 <= k < tu.atoms.len() implies has_atom(t, #[trigger] tu.atoms[k]) by {
            assert(has_atom(s, tu.atoms[k]));
        }
    }
}

pub(crate) proof fn lemma_intern_ok(s: RelState, ty: Seq<char>, label: Seq<char>, bits: Option<u64>)
    requires
        state_ok(s),
    ensures
        state_ok(step_intern(s, ty, label, bits).0),
        has_atom(step_intern(s, ty, label, bits).0, step_intern(s, ty, label, bits).1),
        forall|id: Seq<char>| has_atom(s, id) ==> has_atom(step_intern(s, ty, label, bits).0, id),
        forall|id: Seq<char>, aty: Seq<char>|
            has_typed_atom(s, id, aty) ==> #[trigger] has_typed_atom(
                step_intern(s, ty, label, bits).0,
                id,
                aty,
            ),
        step_intern(s, ty, label, bits).0.records == s.records,
{
    lemma_find_interned(s.interned, ty, label, bits);
    match find_interned(s.interned, ty, label, bits) {
        Some(i) => {
            assert(has_atom(s, s.interned[i].id));
        },
        None => {
            lemma_emit_ok(s, ty, label);
            let (s2, id) = step_emit(s, ty, label);
            let t = step_intern(s, ty, label, bits).0;
            assert(t.atoms == s2.atoms);
            assert(t.records == s2.records);
            assert forall|x: Seq<char>| has_atom(t, x) == has_atom(s2, x) by {}
            assert forall|x: Seq<char>, aty: Seq<char>| #[trigger] has_typed_atom(t, x, aty)
                == has_typed_atom(s2, x, aty) by {}
            assert forall|i: int| 0 <= i < t.interned.len() implies has_atom(t, #[trigger] t.interned[i].id) by {
                if i < s.interned.len() {
                    assert(t.interned[i] == s.interned[i]);
                    assert(has_atom(s, s.interned[i].id));
                    assert(has_atom(s2, s.interned[i].id));
                } else {
                    assert(t.interned[i].id == id);
                }
            }
            assert forall|i: int| 0 <= i < t.interned.len() implies interned_atom(t, #[trigger] t.interned[i]) by {
                if i < s.interned.len() {
                    assert(t.interned[i] == s2.interned[i]);
                    assert(interned_atom(s2, s2.interned[i]));
                } else {
                    let n = s.atoms.len() as int;
                    assert(t.atoms[n] == (AtomView { id, ty, label }));
                }
            }
            assert forall|a: int, b: int|
                0 <= a < t.records.len() && 0 <= b < t.records[a].tuples.len() implies tuple_ok(
                t,
                t.records[a].source,
                #[trigger] t.records[a].tuples[b],
            ) by {
                let tu = t.records[a].tuples[b];
                assert(tuple_ok(s2, s2.records[a].source, tu));
                assert forall|k: int| 0 <= k < tu.atoms.len() implies has_atom(t, #[trigger] tu.atoms[k]) by {
                    assert(has_atom(s2, tu.atoms[k]));
                }
            }
            assert forall|i: int, j: int| 0 <= i < j < t.interned.len() implies !(
            #[trigger] t.interned[i].ty == #[trigger] t.interned[j].ty && t.interned[i].label
                == t.interned[j].label && t.interned[i].bits == t.interned[j].bits) by {
                if j == s.interned.len() {
                    assert(t.interned[i] == s.interned[i]);
                }
            }
            assert forall|i: int, j: int| 0 <= i < j < t.interned.len() implies #[trigger] t.interned[i].id
                != #[trigger] t.interned[j].id by {
                if j == s.interned.len() {
                    assert(t.interned[i] == s.interned[i]);
                    assert(has_atom(s, s.interned[i].id));
                    lemma_emit_fresh(s, ty, label);
                }
            }
            assert(state_ok(t));
        },
    }
}

pub(crate) proof fn lemma_add_tuple_ok(s: RelState, name: Seq<char>, t: TupleView)
    requires
        state_ok(s),
        t.atoms.len() == t.types.len(),
        1 <= t.types.len() <= 3,
        has_typed_atom(s, t.atoms[0], t.types[0]),
        forall|k: int| 0 <= k < t.atoms.len() ==> has_atom(s, #[trigger] t.atoms[k]),
    ensures
        state_ok(step_add_tuple(s, name, t)),
        step_add_tuple(s, name, t).atoms == s.atoms,
        step_add_tuple(s, name, t).interned == s.interned,
        step_add_tuple(s, name, t).collected == s.collected,
{
    let source = t.types[0];
    lemma_find_record(s.records, source, name);
    let u = step_add_tuple(s, name, t);
    assert(u.atoms == s.atoms);
    assert forall|x: Seq<char>| has_atom(s, x) == has_atom(u, x) by {}
    match find_record(s.records, source, name) {
        Some(i) => {
            assert forall|a: int, b: int|
                0 <= a < u.records.len() && 0 <= b < u.records[a].tuples.len() implies tuple_ok(
                u,
                u.records[a].source,
                #[trigger] u.records[a].tuples[b],
            ) by {
                if a == i && b == s.records[i].tuples.len() {
                    assert(u.records[a].tuples[b] == t);
                } else if a == i {
                    assert(u.records[a].tuples[b] == s.records[a].tuples[b]);
                    assert(tuple_ok(s, s.records[a].source, s.records[a].tuples[b]));
                } else {
                    assert(tuple_ok(s, s.records[a].source, s.records[a].tuples[b]));
                }
            }
            assert forall|a: int, b: int| 0 <= a < b < u.records.len() implies !(
            #[trigger] u.records[a].source == #[trigger] u.records[b].source && u.records[a].name
                == u.records[b].name) by {
                assert(u.records[a].source == s.records[a].source);
                assert(u.records[b].source == s.records[b].source);
                assert(u.records[a].name == s.records[a].name);
                assert(u.records[b].name == s.records[b].name);
            }
            assert forall|a: int| 0 <= a < u.records.len() implies #[trigger] u.records[a].tuples.len()
                >= 1 by {
                assert(s.records[a].tuples.len() >= 1);
            }
        },
        None => {
            let n = s.records.len() as int;
            assert forall|a: int, b: int|
                0 <= a < u.records.len() && 0 <= b < u.records[a].tuples.len() implies tuple_ok(
                u,
                u.records[a].source,
                #[trigger] u.records[a].tuples[b],
            ) by {
                if a == n {
                    assert(u.records[a].tuples[b] == t);
                } else {
                    assert(tuple_ok(s, s.records[a].source, s.records[a].tuples[b]));
                }
            }
            assert forall|a: int, b: int| 0 <= a < b < u.records.len() implies !(
            #[trigger] u.records[a].source == #[trigger] u.records[b].source && u.records[a].name
                == u.records[b].name) by {
                if b == n {
                    assert(u.records[a] == s.records[a]);
                }
            }
            assert forall|a: int| 0 <= a < u.records.len() implies #[trigger] u.records[a].tuples.len()
                >= 1 by {
                if a < n {
                    assert(s.records[a].tuples.len() >= 1);
                }
            }
        },
    }
}

pub(crate) proof fn lemma_collect_ok(s: RelState, name: Seq<char>, registered: Option<DecoratorsView>)
    requires
        state_ok(s),
    ensures
        state_ok(step_collect(s, name, registered)),
        step_collect(s, name, registered).atoms == s.atoms,
        step_collect(s, name, registered).records == s.records,
        step_collect(s, name, registered).interned == s.interned,
{
    let u = step_collect(s, name, registered);
    assert forall|x: Seq<char>| has_atom(s, x) == has_atom(u, x) by {}
    assert(u.atoms == s.atoms && u.interned == s.interned && u.records == s.records);
    assert forall|x: Seq<char>, aty: Seq<char>| #[trigger] has_typed_atom(s, x, aty) == has_typed_atom(
        u,
        x,
        aty,
    ) by {}
    assert forall|i: int| 0 <= i < u.interned.len() implies interned_atom(u, #[trigger] u.interned[i]) by {
        assert(interned_atom(s, s.interned[i]));
    }
    assert forall|i: int, j: int|
        0 <= i < u.records.len() && 0 <= j < u.records[i].tuples.len() implies tuple_ok(
        u,
        u.records[i].source,
        #[trigger] u.records[i].tuples[j],
    ) by {
        assert(tuple_ok(s, s.records[i].source, s.records[i].tuples[j]));
    }
}

// ---------------------------------------------------------------------------
// Errors
// ---------------------------------------------------------------------------

/// Why a value could not be relationalized: the message its `Serialize`
/// implementation gave.
pub struct SerializationError(String);

impl View for SerializationError {
    type V = Seq<char>;

    closed spec fn view(&self) -> Seq<char> {
        self.0@
    }
}

impl SerializationError {
    /// An error carrying `message`.
    pub fn new(message: String) -> (r: SerializationError)
        ensures
            r@ == message@,
    {
        SerializationError(message)
    }

    /// The message, without any prefix.
    pub fn message(&self) -> (r: &str)
        ensures
            r@ == self@,
    {
        self.0.as_str()
    }
}

// ---------------------------------------------------------------------------
// The executable state
// ---------------------------------------------------------------------------

struct Interned {
    ty: String,
    label: String,
    bits: Option<u64>,
    id: String,
}

struct Record {
    source: String,
    name: String,
    tuples: Vec<ITuple>,
}

/// The state of one relationalization: the atoms made so far, the records
/// their tuples are filed into, the table of shared atoms, and the
/// decorators gathered from the struct types seen.
pub struct Relationalizer {
    atoms: Vec<IAtom>,
    records: Vec<Record>,
    interned: Vec<Interned>,
    collected: SpytialDecorators,
    visited: Vec<String>,
    exclude: Option<String>,
}

/// A positional container being filled: its atom, its type, and the
/// position of its next element.
pub struct Positional {
    id: String,
    ty: String,
    next: usize,
}

/// The id, type and next position of a positional container.
pub struct PositionalView {
    pub id: Seq<char>,
    pub ty: Seq<char>,
    pub next: nat,
}

impl View for Positional {
    type V = PositionalView;

    closed spec fn view(&self) -> PositionalView {
        PositionalView { id: self.id@, ty: self.ty@, next: self.next as nat }
    }
}

impl Positional {
    /// The position the next element will take.
    pub fn next_position(&self) -> (r: usize)
        ensures
            r as nat == self@.next,
    {
        self.next
    }

    /// The container's atom id.
    pub fn id(&self) -> (r: String)
        ensures
            r@ == self@.id,
    {
        self.id.clone()
    }
}

/// A struct or struct variant being filled: its atom and its type.
pub struct Fields {
    id: String,
    ty: String,
}

/// The id and type of a struct or struct variant.
pub struct FieldsView {
    pub id: Seq<char>,
    pub ty: Seq<char>,
}

impl View for Fields {
    type V = FieldsView;

    closed spec fn view(&self) -> FieldsView {
        FieldsView { id: self.id@, ty: self.ty@ }
    }
}

impl Fields {
    /// The atom id of the struct or variant.
    pub fn id(&self) -> (r: String)
        ensures
            r@ == self@.id,
    {
        self.id.clone()
    }
}

/// A map being filled: its atom and the key waiting for its value.
pub struct Entries {
    id: String,
    pending: Option<String>,
}

/// The id and pending key of a map.
pub struct EntriesView {
    pub id: Seq<char>,
    pub pending: Option<Seq<char>>,
}

impl View for Entries {
    type V = EntriesView;

    closed spec fn view(&self) -> EntriesView {
        EntriesView { id: self.id@, pending: opt_str(self.pending) }
    }
}

impl Entries {
    /// The atom id of the map.
    pub fn id(&self) -> (r: String)
        ensures
            r@ == self@.id,
    {
        self.id.clone()
    }

    /// The key waiting for its value, if any.
    pub fn pending_key(&self) -> (r: Option<String>)
        ensures
            opt_str(r) == self@.pending,
    {
        crate::annotations::copy_opt(&self.pending)
    }

    /// Holds `key` until the value of its entry arrives.
    pub fn set_key(&mut self, key: String)
        ensures
            final(self)@ == (EntriesView { pending: Some(key@), ..old(self)@ }),
    {
        self.pending = Some(key);
    }
}

impl View for Relationalizer {
    type V = RelState;

    closed spec fn view(&self) -> RelState {
        RelState {
            atoms: self.atoms@.map_values(|a: IAtom| a@),
            records: self.records@.map_values(
                |r: Record|
                    RecordView {
                        source: r.source@,
                        name: r.name@,
                        tuples: r.tuples@.map_values(|t: ITuple| t@),
                    },
            ),
            interned: self.interned@.map_values(
                |e: Interned| InternView { ty: e.ty@, label: e.label@, bits: e.bits, id: e.id@ },
            ),
            collected: self.collected@,
            visited: self.visited@.map_values(|v: String| v@),
            exclude: opt_str(self.exclude),
        }
    }
}

fn copy_tuple(t: &ITuple) -> (r: ITuple)
    ensures
        r@ == t@,
{
    ITuple { atoms: copy_strings(&t.atoms), types: copy_strings(&t.types) }
}

fn strings2(a: String, b: String) -> (r: Vec<String>)
    ensures
        strs(r@) == seq![a@, b@],
{
    let mut v: Vec<String> = Vec::new();
    v.push(a);
    v.push(b);
    assert(strs(v@) =~= seq![a@, b@]);
    v
}

fn strings3(a: String, b: String, c: String) -> (r: Vec<String>)
    ensures
        strs(r@) == seq![a@, b@, c@],
{
    let mut v: Vec<String> = Vec::new();
    v.push(a);
    v.push(b);
    v.push(c);
    assert(strs(v@) =~= seq![a@, b@, c@]);
    v
}

fn bracketed(prefix: &str, n: usize) -> (r: String)
    ensures
        r@ == prefix@ + seq!['['] + decimal(n as nat) + seq![']'],
{
    let mut s = String::from_str(prefix);
    push_char(&mut s, '[');
    let d = format_unsigned(n as u128);
    s.append(d.as_str());
    push_char(&mut s, ']');
    s
}

/// The display label of a container whose length may be unknown.
pub open spec fn length_label(prefix: Seq<char>, len: Option<usize>) -> Seq<char> {
    let n: nat = match len {
        Some(n) => n as nat,
        None => 0,
    };
    prefix + seq!['['] + decimal(n) + seq![']']
}

impl Relationalizer {
    /// The invariant every relationalization keeps.
    pub closed spec fn wf(&self) -> bool {
        &&& state_ok(self@)
        &&& self.atoms@.len() == self@.atoms.len()
    }

    /// A well-formed relationalization keeps the invariant of every
    /// relationalization, so the laws stated over `state_ok` (atom ids,
    /// record ids, declared tuple positions, header arity) hold of it and of
    /// the instance `finish` makes of it.
    pub proof fn lemma_wf_state_ok(&self)
        requires
            self.wf(),
        ensures
            state_ok(self@),
    {
    }

    /// A relationalization that gathers decorators for every struct type.
    pub fn new() -> (r: Relationalizer)
        ensures
            r.wf(),
            r@ == start_state(None),
    {
        Self::collecting(None)
    }

    /// A relationalization that gathers decorators for every struct type it
    /// meets, except `exclude`.
    pub fn collecting(exclude: Option<&str>) -> (r: Relationalizer)
        ensures
            r.wf(),
            r@ == start_state(
                match exclude {
                    Some(e) => Some(e@),
                    None => None,
                },
            ),
    {
        let r = Relationalizer {
            atoms: Vec::new(),
            records: Vec::new(),
            interned: Vec::new(),
            collected: SpytialDecorators::default(),
            visited: Vec::new(),
            exclude: own_opt(exclude),
        };
        assert(r@.atoms =~= Seq::<AtomView>::empty());
        assert(r@.records =~= Seq::<RecordView>::empty());
        assert(r@.interned =~= Seq::<InternView>::empty());
        assert(r@.visited =~= Seq::<Seq<char>>::empty());
        r
    }

    /// Whether `id` names an atom made so far.
    pub fn contains_atom(&self, id: &str) -> (r: bool)
        requires
            self.wf(),
        ensures
            r == has_atom(self@, id@),
    {
        let mut i: usize = 0;
        while i < self.atoms.len()
            invariant
                i <= self.atoms@.len(),
                self.wf(),
                forall|j: int| 0 <= j < i ==> self@.atoms[j].id != id@,
            decreases self.atoms.len() - i,
        {
            if same_text(self.atoms[i].id.as_str(), id) {
                assert(self@.atoms[i as int].id == id@);
                return true;
            }
            i = i + 1;
        }
        false
    }

    fn atom_index(&self, id: &str) -> (r: Option<usize>)
        requires
            self.wf(),
        ensures
            match r {
                Some(i) => find_atom(self@.atoms, id@) == Some(i as int) && i < self.atoms@.len()
                    && self@.atoms[i as int] == self.atoms@[i as int]@,
                None => find_atom(self@.atoms, id@) is None,
            },
    {
        let mut i = self.atoms.len();
        let ghost t = self@.atoms;
        assert(t.take(i as int) =~= t);
        while i > 0
            invariant
                i <= self.atoms@.len(),
                t == self@.atoms,
                t.len() == self.atoms@.len(),
                find_atom(t, id@) == find_atom(t.take(i as int), id@),
            decreases i,
        {
            assert(t.take(i as int).last() == t[i - 1]);
            assert(t.take(i as int).drop_last() =~= t.take(i - 1));
            if same_text(self.atoms[i - 1].id.as_str(), id) {
                return Some(i - 1);
            }
            i = i - 1;
        }
        assert(t.take(0) =~= Seq::<AtomView>::empty());
        None
    }

    fn emit_atom(&mut self, ty: &str, label: &str) -> (id: String)
        requires
            old(self).wf(),
        ensures
            final(self).wf(),
            (final(self)@, id@) == step_emit(old(self)@, ty@, label@),
    {
        proof {
            lemma_emit_ok(self@, ty@, label@);
        }
        let mut id = String::from_str("atom");
        let n = format_unsigned(self.atoms.len() as u128);
        id.append(n.as_str());
        let ghost before = self.atoms@;
        self.atoms.push(
            IAtom { id: id.clone(), atom_type: String::from_str(ty), label: String::from_str(label) },
        );
        assert(self@.atoms =~= before.map_values(|a: IAtom| a@).push(
            AtomView { id: id@, ty: ty@, label: label@ },
        ));
        id
    }

    fn intern(&mut self, ty: &str, label: &str, bits: Option<u64>) -> (id: String)
        requires
            old(self).wf(),
        ensures
            final(self).wf(),
            (final(self)@, id@) == step_intern(old(self)@, ty@, label@, bits),
    {
        proof {
            lemma_intern_ok(self@, ty@, label@, bits);
        }
        let mut i = self.interned.len();
        let ghost t = self@.interned;
        assert(t.take(i as int) =~= t);
        while i > 0
            invariant
                i <= self.interned@.len(),
                self.wf(),
                self@ == old(self)@,
                t == self@.interned,
                t.len() == self.interned@.len(),
                find_interned(t, ty@, label@, bits) == find_interned(t.take(i as int), ty@, label@, bits),
            decreases i,
        {
            let e = &self.interned[i - 1];
            assert(t.take(i as int).last() == t[i - 1]);
            assert(t.take(i as int).drop_last() =~= t.take(i - 1));
            if same_text(e.ty.as_str(), ty) && same_text(e.label.as_str(), label) && e.bits == bits {
                return e.id.clone();
            }
            i = i - 1;
        }
        assert(t.take(0) =~= Seq::<InternView>::empty());
        let id = self.emit_atom(ty, label);
        let ghost before = self.interned@;
        self.interned.push(
            Interned { ty: String::from_str(ty), label: String::from_str(label), bits, id: id.clone() },
        );
        assert(self@.interned =~= t.push(InternView { ty: ty@, label: label@, bits, id: id@ }));
        id
    }

    fn find_record(&self, source: &str, name: &str) -> (r: Option<usize>)
        requires
            self.wf(),
        ensures
            r matches Some(i) ==> find_record(self@.records, source@, name@) == Some(i as int) && i
                < self.records@.len(),
            r is None ==> find_record(self@.records, source@, name@) is None,
    {
        proof {
            lemma_find_record(self@.records, source@, name@);
        }
        let mut i = self.records.len();
        let ghost t = self@.records;
        assert(t.take(i as int) =~= t);
        while i > 0
            invariant
                i <= self.records@.len(),
                t == self@.records,
                t.len() == self.records@.len(),
                find_record(t, source@, name@) == find_record(t.take(i as int), source@, name@),
            decreases i,
        {
            assert(t.take(i as int).last() == t[i - 1]);
            assert(t.take(i as int).drop_last() =~= t.take(i - 1));
            if same_text(self.records[i - 1].source.as_str(), source) && same_text(
                self.records[i - 1].name.as_str(),
                name,
            ) {
                return Some(i - 1);
            }
            i = i - 1;
        }
        assert(t.take(0) =~= Seq::<RecordView>::empty());
        None
    }

    fn push_tuple(&mut self, name: &str, tuple: ITuple)
        requires
            old(self).wf(),
            tuple@.atoms.len() == tuple@.types.len(),
            1 <= tuple@.types.len() <= 3,
            has_typed_atom(old(self)@, tuple@.atoms[0], tuple@.types[0]),
            forall|k: int|
                0 <= k < tuple@.atoms.len() ==> has_atom(old(self)@, #[trigger] tuple@.atoms[k]),
        ensures
            final(self).wf(),
            final(self)@ == step_add_tuple(old(self)@, name@, tuple@),
    {
        proof {
            lemma_add_tuple_ok(self@, name@, tuple@);
        }
        let source = tuple.types[0].clone();
        match self.find_record(source.as_str(), name) {
            Some(i) => {
                let ghost before = self.records@;
                let mut rec = self.records.remove(i);
                let ghost old_tuples = rec.tuples@;
                rec.tuples.push(tuple);
                self.records.insert(i, rec);
                assert(self.records@ =~= before.update(i as int, rec));
                assert(rec.tuples@.map_values(|t: ITuple| t@) =~= old_tuples.map_values(
                    |t: ITuple| t@,
                ).push(tuple@));
                assert(self@.records =~= old(self)@.records.update(
                    i as int,
                    RecordView {
                        tuples: old(self)@.records[i as int].tuples.push(tuple@),
                        ..old(self)@.records[i as int]
                    },
                ));
            },
            None => {
                let mut tuples: Vec<ITuple> = Vec::new();
                tuples.push(tuple);
                let rec = Record { source, name: String::from_str(name), tuples };
                let ghost before = self.records@;
                self.records.push(rec);
                assert(rec.tuples@.map_values(|t: ITuple| t@) =~= seq![tuple@]);
                assert(self@.records =~= old(self)@.records.push(
                    RecordView { source: source@, name: name@, tuples: seq![tuple@] },
                ));
            },
        }
    }

    fn push_pair(&mut self, name: &str, source: String, source_type: &str, target: String)
        requires
            old(self).wf(),
            has_typed_atom(old(self)@, source@, source_type@),
            has_atom(old(self)@, target@),
        ensures
            final(self).wf(),
            final(self)@ == step_add_tuple(
                old(self)@,
                name@,
                field_tuple(source@, source_type@, target@),
            ),
    {
        let t = ITuple {
            atoms: strings2(source, target),
            types: strings2(String::from_str(source_type), String::from_str("atom")),
        };
        assert(t@ == field_tuple(source@, source_type@, target@));
        self.push_tuple(name, t);
    }

    // -- scalars -----------------------------------------------------------

    /// A `bool`: the shared atom of type `bool` labelled `true` or `false`.
    pub fn serialize_bool(&mut self, v: bool) -> (id: String)
        requires
            old(self).wf(),
        ensures
            final(self).wf(),
            (final(self)@, id@) == step_intern(
                old(self)@,
                "bool"@,
                if v {
                    "true"@
                } else {
                    "false"@
                },
                None,
            ),
    {
        if v {
            self.intern("bool", "true", None)
        } else {
            self.intern("bool", "false", None)
        }
    }

    /// A signed integer of type `ty` (`i8` ... `i128`): the shared atom
    /// labelled with its decimal spelling.
    pub fn serialize_signed(&mut self, ty: &str, v: i128) -> (id: String)
        requires
            old(self).wf(),
        ensures
            final(self).wf(),
            (final(self)@, id@) == step_intern(old(self)@, ty@, signed_decimal(v as int), None),
    {
        let label = format_signed(v);
        self.intern(ty, label.as_str(), None)
    }

    /// An unsigned integer of type `ty` (`u8` ... `u128`): the shared atom
    /// labelled with its decimal spelling.
    pub fn serialize_unsigned(&mut self, ty: &str, v: u128) -> (id: String)
        requires
            old(self).wf(),
        ensures
            final(self).wf(),
            (final(self)@, id@) == step_intern(old(self)@, ty@, decimal(v as nat), None),
    {
        let label = format_unsigned(v);
        self.intern(ty, label.as_str(), None)
    }

    /// A float of type `ty` with display text `label` and bit pattern
    /// `bits`: shared by bit pattern, except that a NaN always gets a new
    /// atom.
    pub fn serialize_float(&mut self, ty: &str, label: &str, bits: u64, is_nan: bool) -> (id:
        String)
        requires
            old(self).wf(),
        ensures
            final(self).wf(),
            is_nan ==> (final(self)@, id@) == step_emit(old(self)@, ty@, label@),
            !is_nan ==> (final(self)@, id@) == step_intern(old(self)@, ty@, label@, Some(bits)),
    {
        if is_nan {
            self.emit_atom(ty, label)
        } else {
            self.intern(ty, label, Some(bits))
        }
    }

    /// A `char`: the shared atom of type `char` labelled with it.
    pub fn serialize_char(&mut self, c: char) -> (id: String)
        requires
            old(self).wf(),
        ensures
            final(self).wf(),
            (final(self)@, id@) == step_intern(old(self)@, "char"@, seq![c], None),
    {
        let mut label = String::new();
        push_char(&mut label, c);
        assert(label@ =~= seq![c]);
        self.intern("char", label.as_str(), None)
    }

    /// A string: the shared atom of type `string` labelled with its text.
    pub fn serialize_str(&mut self, v: &str) -> (id: String)
        requires
            old(self).wf(),
        ensures
            final(self).wf(),
            (final(self)@, id@) == step_intern(old(self)@, "string"@, v@, None),
    {
        self.intern("string", v, None)
    }

    /// A byte array: the shared atom of type `bytes` labelled like
    /// `[0, 255]`.
    pub fn serialize_bytes(&mut self, v: &[u8]) -> (id: String)
        requires
            old(self).wf(),
        ensures
            final(self).wf(),
            (final(self)@, id@) == step_intern(old(self)@, "bytes"@, bytes_label(v@), None),
    {
        let label = format_bytes_label(v);
        self.intern("bytes", label.as_str(), None)
    }

    /// `None`: the shared `None` atom.
    pub fn serialize_none(&mut self) -> (id: String)
        requires
            old(self).wf(),
        ensures
            final(self).wf(),
            (final(self)@, id@) == step_intern(old(self)@, "None"@, "None"@, None),
    {
        self.intern("None", "None", None)
    }

    /// `Some(x)`, once `x` has become the atom `inner`.
    pub fn serialize_some(&mut self, inner: String) -> (id: String)
        requires
            old(self).wf(),
            has_atom(old(self)@, inner@),
        ensures
            final(self).wf(),
            (final(self)@, id@) == step_some(old(self)@, inner@),
    {
        let optionish = match self.atom_index(inner.as_str()) {
            Some(i) => {
                let ty = self.atoms[i].atom_type.as_str();
                same_text(ty, "None") || same_text(ty, "Some")
            },
            None => false,
        };
        if optionish {
            let id = self.emit_atom("Some", "Some");
            proof {
                lemma_emit_ok(old(self)@, "Some"@, "Some"@);
            }
            self.push_pair("value", id.clone(), "Some", inner);
            id
        } else {
            inner
        }
    }

    /// The unit value: the shared atom of type `unit` labelled `()`.
    pub fn serialize_unit(&mut self) -> (id: String)
        requires
            old(self).wf(),
        ensures
            final(self).wf(),
            (final(self)@, id@) == step_intern(old(self)@, "unit"@, "()"@, None),
    {
        self.intern("unit", "()", None)
    }

    /// A unit struct: the shared atom of type `unit_struct` labelled with
    /// its name.
    pub fn serialize_unit_struct(&mut self, name: &str) -> (id: String)
        requires
            old(self).wf(),
        ensures
            final(self).wf(),
            (final(self)@, id@) == step_intern(old(self)@, "unit_struct"@, name@, None),
    {
        self.intern("unit_struct", name, None)
    }

    /// A unit variant: the shared atom whose type is the enum's name and
    /// whose label is the variant's.
    pub fn serialize_unit_variant(&mut self, enum_name: &str, variant: &str) -> (id: String)
        requires
            old(self).wf(),
        ensures
            final(self).wf(),
            (final(self)@, id@) == step_intern(old(self)@, enum_name@, variant@, None),
    {
        self.intern(enum_name, variant, None)
    }

    // -- wrappers ----------------------------------------------------------

    /// Opens a newtype struct: a new `newtype_struct` atom labelled with
    /// its name.
    pub fn begin_newtype_struct(&mut self, name: &str) -> (id: String)
        requires
            old(self).wf(),
        ensures
            final(self).wf(),
            (final(self)@, id@) == step_emit(old(self)@, "newtype_struct"@, name@),
    {
        self.emit_atom("newtype_struct", name)
    }

    /// Closes a newtype struct `wrapper` around `inner`: `value(wrapper,
    /// inner)`.
    pub fn end_newtype_struct(&mut self, wrapper: String, inner: String)
        requires
            old(self).wf(),
            has_typed_atom(old(self)@, wrapper@, "newtype_struct"@),
            has_atom(old(self)@, inner@),
        ensures
            final(self).wf(),
            final(self)@ == step_add_tuple(
                old(self)@,
                "value"@,
                field_tuple(wrapper@, "newtype_struct"@, inner@),
            ),
    {
        self.push_pair("value", wrapper, "newtype_struct", inner)
    }

    /// Opens a newtype variant: a new atom typed by the enum and labelled
    /// with the variant.
    pub fn begin_newtype_variant(&mut self, enum_name: &str, variant: &str) -> (id: String)
        requires
            old(self).wf(),
        ensures
            final(self).wf(),
            (final(self)@, id@) == step_emit(old(self)@, enum_name@, variant@),
    {
        self.emit_atom(enum_name, variant)
    }

    /// Closes a newtype variant of enum `enum_name` around `inner`:
    /// `variant_value(variant, inner)`.
    pub fn end_newtype_variant(&mut self, variant: String, enum_name: &str, inner: String)
        requires
            old(self).wf(),
            has_typed_atom(old(self)@, variant@, enum_name@),
            has_atom(old(self)@, inner@),
        ensures
            final(self).wf(),
            final(self)@ == step_add_tuple(
                old(self)@,
                "variant_value"@,
                field_tuple(variant@, enum_name@, inner@),
            ),
    {
        self.push_pair("variant_value", variant, enum_name, inner)
    }

    // -- positional containers ---------------------------------------------

    fn begin_positional(&mut self, ty: &str, label: &str) -> (r: Positional)
        requires
            old(self).wf(),
        ensures
            final(self).wf(),
            (final(self)@, r@.id) == step_emit(old(self)@, ty@, label@),
            r@.ty == ty@,
            r@.next == 0,
    {
        let id = self.emit_atom(ty, label);
        Positional { id, ty: String::from_str(ty), next: 0 }
    }

    /// Opens a sequence: a new `sequence` atom labelled `seq[len]` (`seq[0]`
    /// when the length is not known up front).
    pub fn begin_seq(&mut self, len: Option<usize>) -> (r: Positional)
        requires
            old(self).wf(),
        ensures
            final(self).wf(),
            (final(self)@, r@.id) == step_emit(old(self)@, "sequence"@, length_label("seq"@, len)),
            r@.ty == "sequence"@,
            r@.next == 0,
    {
        let n = match len {
            Some(n) => n,
            None => 0,
        };
        let label = bracketed("seq", n);
        self.begin_positional("sequence", label.as_str())
    }

    /// Opens a tuple: a new `tuple` atom labelled `tuple[len]`.
    pub fn begin_tuple(&mut self, len: usize) -> (r: Positional)
        requires
            old(self).wf(),
        ensures
            final(self).wf(),
            (final(self)@, r@.id) == step_emit(
                old(self)@,
                "tuple"@,
                length_label("tuple"@, Some(len)),
            ),
            r@.ty == "tuple"@,
            r@.next == 0,
    {
        let label = bracketed("tuple", len);
        self.begin_positional("tuple", label.as_str())
    }

    /// Opens a tuple struct: a new `tuple_struct` atom labelled with its name.
    pub fn begin_tuple_struct(&mut self, name: &str) -> (r: Positional)
        requires
            old(self).wf(),
        ensures
            final(self).wf(),
            (final(self)@, r@.id) == step_emit(old(self)@, "tuple_struct"@, name@),
            r@.ty == "tuple_struct"@,
            r@.next == 0,
    {
        self.begin_positional("tuple_struct", name)
    }

    /// Opens a tuple variant: a new atom typed by the enum and labelled with
    /// the variant.
    pub fn begin_tuple_variant(&mut self, enum_name: &str, variant: &str) -> (r: Positional)
        requires
            old(self).wf(),
        ensures
            final(self).wf(),
            (final(self)@, r@.id) == step_emit(old(self)@, enum_name@, variant@),
            r@.ty == enum_name@,
            r@.next == 0,
    {
        let id = self.emit_atom(enum_name, variant);
        Positional { id, ty: String::from_str(enum_name), next: 0 }
    }

    /// Adds `element` at the container's next position:
    /// `idx(container, position, element)`, the position being the shared
    /// `u64` atom of its number.
    pub fn push_element(&mut self, container: &mut Positional, element: String)
        requires
            old(self).wf(),
            has_typed_atom(old(self)@, old(container)@.id, old(container)@.ty),
            has_atom(old(self)@, element@),
            old(container)@.next < usize::MAX,
        ensures
            final(self).wf(),
            final(self)@ == step_element(
                old(self)@,
                old(container)@.id,
                old(container)@.ty,
                old(container)@.next,
                element@,
            ),
            final(container)@ == (PositionalView { next: old(container)@.next + 1, ..old(container)@ }),
    {
        let label = format_unsigned(container.next as u128);
        let pos = self.intern("u64", label.as_str(), None);
        proof {
            lemma_intern_ok(old(self)@, "u64"@, decimal(old(container)@.next), None);
            let w = choose|w: int|
                0 <= w < old(self)@.atoms.len() && old(self)@.atoms[w].id == old(container)@.id
                    && old(self)@.atoms[w].ty == old(container)@.ty;
            assert(has_atom(old(self)@, old(container)@.id));
        }
        let t = ITuple {
            atoms: strings3(container.id.clone(), pos, element),
            types: strings3(container.ty.clone(), String::from_str("u64"), String::from_str("atom")),
        };
        self.push_tuple("idx", t);
        container.next = container.next + 1;
    }

    // -- maps --------------------------------------------------------------

    /// Opens a map: a new `map` atom labelled `map[len]` (`map[0]` when the
    /// length is not known up front).
    pub fn begin_map(&mut self, len: Option<usize>) -> (r: Entries)
        requires
            old(self).wf(),
        ensures
            final(self).wf(),
            (final(self)@, r@.id) == step_emit(old(self)@, "map"@, length_label("map"@, len)),
            r@.pending is None,
    {
        let n = match len {
            Some(n) => n,
            None => 0,
        };
        let label = bracketed("map", n);
        let id = self.emit_atom("map", label.as_str());
        Entries { id, pending: None }
    }

    /// The value of the pending entry: `map_entry(map, key, value)`. A value
    /// with no key pending adds nothing.
    pub fn push_value(&mut self, map: &mut Entries, value: String)
        requires
            old(self).wf(),
            has_typed_atom(old(self)@, old(map)@.id, "map"@),
            has_atom(old(self)@, value@),
            old(map)@.pending matches Some(k) ==> has_atom(old(self)@, k),
        ensures
            final(self).wf(),
            final(self)@ == match old(map)@.pending {
                Some(k) => step_add_tuple(
                    old(self)@,
                    "map_entry"@,
                    entry_tuple(old(map)@.id, k, value@),
                ),
                None => old(self)@,
            },
            final(map)@ == (EntriesView { pending: None, ..old(map)@ }),
    {
        let pending = map.pending.take();
        match pending {
            Some(key) => {
                let t = ITuple {
                    atoms: strings3(map.id.clone(), key, value),
                    types: strings3(
                        String::from_str("map"),
                        String::from_str("atom"),
                        String::from_str("atom"),
                    ),
                };
                assert(t@ == entry_tuple(old(map)@.id, old(map)@.pending->0, value@));
                self.push_tuple("map_entry", t);
            },
            None => {},
        }
    }

    // -- structs -----------------------------------------------------------

    fn collect_decorators_for_type(&mut self, name: &str, registered: Option<SpytialDecorators>)
        requires
            old(self).wf(),
        ensures
            final(self).wf(),
            final(self)@ == step_collect(old(self)@, name@, opt_decorators(registered)),
    {
        proof {
            lemma_collect_ok(self@, name@, opt_decorators(registered));
        }
        match &self.exclude {
            Some(e) => {
                if same_text(e.as_str(), name) {
                    return;
                }
            },
            None => {},
        }
        let mut i: usize = 0;
        while i < self.visited.len()
            invariant
                i <= self.visited@.len(),
                self.wf(),
                self@ == old(self)@,
                forall|j: int| 0 <= j < i ==> self@.visited[j] != name@,
            decreases self.visited.len() - i,
        {
            if same_text(self.visited[i].as_str(), name) {
                assert(self@.visited[i as int] == name@);
                return;
            }
            i = i + 1;
        }
        assert(!self@.visited.contains(name@));
        let ghost before = self.visited@;
        self.visited.push(String::from_str(name));
        assert(self@.visited =~= old(self)@.visited.push(name@));
        match registered {
            Some(d) => {
                self.collected.append(&d);
            },
            None => {},
        }
    }

    /// Opens a struct: a new atom whose type and label are its name; the
    /// decorators `registered` for the type (what the decorator registry
    /// holds for `name` when the struct is met) are gathered.
    pub fn begin_struct(&mut self, name: &str, registered: Option<SpytialDecorators>) -> (r: Fields)
        requires
            old(self).wf(),
        ensures
            final(self).wf(),
            final(self)@ == step_collect(
                step_emit(old(self)@, name@, name@).0,
                name@,
                opt_decorators(registered),
            ),
            r@.id == step_emit(old(self)@, name@, name@).1,
            r@.ty == name@,
    {
        let id = self.emit_atom(name, name);
        self.collect_decorators_for_type(name, registered);
        Fields { id, ty: String::from_str(name) }
    }

    /// Opens a struct variant: a new atom typed by the enum and labelled
    /// with the variant.
    pub fn begin_struct_variant(&mut self, enum_name: &str, variant: &str) -> (r: Fields)
        requires
            old(self).wf(),
        ensures
            final(self).wf(),
            (final(self)@, r@.id) == step_emit(old(self)@, enum_name@, variant@),
            r@.ty == enum_name@,
    {
        let id = self.emit_atom(enum_name, variant);
        Fields { id, ty: String::from_str(enum_name) }
    }

    /// Adds field `key` with value `value`: `key(parent, value)`.
    pub fn push_field(&mut self, parent: &Fields, key: &str, value: String)
        requires
            old(self).wf(),
            has_typed_atom(old(self)@, parent@.id, parent@.ty),
            has_atom(old(self)@, value@),
        ensures
            final(self).wf(),
            final(self)@ == step_add_tuple(
                old(self)@,
                key@,
                field_tuple(parent@.id, parent@.ty, value@),
            ),
    {
        self.push_pair(key, parent.id.clone(), parent.ty.as_str(), value)
    }

    // -- finishing -----------------------------------------------------------

    /// The instance built: the atoms, and one record per source type and
    /// relation name in the order each was first used.
    pub fn finish(self) -> (r: JsonDataInstance)
        requires
            self.wf(),
        ensures
            r@ == finished(self@),
    {
        let (r, _d) = self.finish_with_decorators();
        r
    }

    /// The instance built, with the decorators gathered from the struct
    /// types it met.
    pub fn finish_with_decorators(self) -> (r: (JsonDataInstance, SpytialDecorators))
        requires
            self.wf(),
        ensures
            r.0@ == finished(self@),
            r.1@ == self@.collected,
    {
        let ghost s = self@;
        let mut relations: Vec<IRelation> = Vec::new();
        let mut i: usize = 0;
        while i < self.records.len()
            invariant
                i <= self.records@.len(),
                s == self@,
                self.wf(),
                relations@.map_values(|r: IRelation| r@) == s.records.take(i as int).map_values(
                    |r: RecordView| finished_record(r),
                ),
            decreases self.records.len() - i,
        {
            let rec = &self.records[i];
            assert(s.records[i as int].tuples.len() >= 1);
            let rel = finish_record(rec);
            let ghost prev = relations@;
            relations.push(rel);
            assert(relations@.map_values(|r: IRelation| r@) =~= prev.map_values(|r: IRelation| r@).push(
                rel@,
            ));
            assert(s.records.take(i + 1).map_values(|r: RecordView| finished_record(r))
                =~= s.records.take(i as int).map_values(|r: RecordView| finished_record(r)).push(
                finished_record(s.records[i as int]),
            ));
            i = i + 1;
        }
        assert(s.records.take(s.records.len() as int) =~= s.records);
        let inst = JsonDataInstance { atoms: self.atoms, relations };
        (inst, self.collected)
    }
}

// ---------------------------------------------------------------------------
// Finishing one record
// ---------------------------------------------------------------------------

spec fn tuple_views(v: Seq<ITuple>) -> Seq<TupleView> {
    v.map_values(|t: ITuple| t@)
}

fn max_arity_of(ts: &Vec<ITuple>) -> (m: usize)
    ensures
        m as nat == max_arity(tuple_views(ts@)),
{
    let mut m: usize = 0;
    let mut i: usize = 0;
    while i < ts.len()
        invariant
            i <= ts@.len(),
            m as nat == max_arity(tuple_views(ts@).take(i as int)),
        decreases ts.len() - i,
    {
        let ghost t = tuple_views(ts@).take(i + 1);
        assert(t.drop_last() =~= tuple_views(ts@).take(i as int));
        assert(t.last() == ts@[i as int]@);
        assert(ts@[i as int]@.types.len() == ts@[i as int].types@.len());
        if ts[i].types.len() > m {
            m = ts[i].types.len();
        }
        i = i + 1;
    }
    assert(tuple_views(ts@).take(ts@.len() as int) =~= tuple_views(ts@));
    m
}

proof fn lemma_first_with(ts: Seq<TupleView>, k: int)
    ensures
        0 <= first_with(ts, k) <= ts.len(),
        forall|j: int| 0 <= j < first_with(ts, k) ==> ts[j].types.len() <= k,
        first_with(ts, k) < ts.len() ==> ts[first_with(ts, k)].types.len() > k,
    decreases ts.len(),
{
    if ts.len() > 0 && ts[0].types.len() <= k {
        lemma_first_with(ts.drop_first(), k);
        assert forall|j: int| 0 <= j < first_with(ts, k) implies ts[j].types.len() <= k by {
            if j > 0 {
                assert(ts[j] == ts.drop_first()[j - 1]);
            }
        }
        if first_with(ts, k) < ts.len() {
            assert(ts[first_with(ts, k)] == ts.drop_first()[first_with(ts.drop_first(), k)]);
        }
    }
}

pub(crate) proof fn lemma_max_arity(ts: Seq<TupleView>)
    ensures
        forall|j: int| 0 <= j < ts.len() ==> ts[j].types.len() <= max_arity(ts),
        ts.len() > 0 ==> exists|j: int| 0 <= j < ts.len() && ts[j].types.len() == max_arity(ts),
    decreases ts.len(),
{
    if ts.len() > 0 {
        lemma_max_arity(ts.drop_last());
        assert forall|j: int| 0 <= j < ts.len() implies ts[j].types.len() <= max_arity(ts) by {
            if j < ts.len() - 1 {
                assert(ts[j] == ts.drop_last()[j]);
            }
        }
        if ts.last().types.len() <= max_arity(ts.drop_last()) && ts.len() > 1 {
            let j = choose|j: int|
                0 <= j < ts.drop_last().len() && ts.drop_last()[j].types.len() == max_arity(
                    ts.drop_last(),
                );
            assert(ts[j] == ts.drop_last()[j]);
        }
    }
}

fn header_type_at(ts: &Vec<ITuple>, k: usize) -> (r: String)
    requires
        exists|j: int| 0 <= j < ts@.len() && ts@[j]@.types.len() > k,
    ensures
        r@ == header_at(tuple_views(ts@), k as int),
{
    let ghost tv = tuple_views(ts@);
    proof {
        lemma_first_with(tv, k as int);
        let j = choose|j: int| 0 <= j < ts@.len() && ts@[j]@.types.len() > k;
        assert(tv[j] == ts@[j]@);
    }
    let n = ts.len();
    let mut w: usize = 0;
    while ts[w].types.len() <= k
        invariant
            n == ts@.len(),
            w <= first_with(tv, k as int),
            first_with(tv, k as int) < ts@.len(),
            tv == tuple_views(ts@),
            forall|j: int| 0 <= j < ts@.len() ==> tv[j] == ts@[j]@,
            forall|j: int| 0 <= j < first_with(tv, k as int) ==> tv[j].types.len() <= k,
            tv[first_with(tv, k as int)].types.len() > k,
        decreases first_with(tv, k as int) - w,
    {
        assert(tv[w as int] == ts@[w as int]@);
        assert(w as int != first_with(tv, k as int));
        w = w + 1;
    }
    assert(tv[w as int] == ts@[w as int]@);
    assert(w as int == first_with(tv, k as int));
    let first = ts[w].types[k].clone();
    let mut j: usize = 0;
    while j < ts.len()
        invariant
            j <= ts@.len(),
            tv == tuple_views(ts@),
            forall|x: int| 0 <= x < ts@.len() ==> tv[x] == ts@[x]@,
            first@ == tv[first_with(tv, k as int)].types[k as int],
            forall|x: int| 0 <= x < j && tv[x].types.len() > k ==> #[trigger] tv[x].types[k as int]
                == first@,
        decreases ts.len() - j,
    {
        assert(tv[j as int] == ts@[j as int]@);
        if ts[j].types.len() > k {
            if !same_text(ts[j].types[k].as_str(), first.as_str()) {
                assert(tv[j as int].types[k as int] != first@);
                return String::from_str("atom");
            }
        }
        j = j + 1;
    }
    first
}

fn finish_record(rec: &Record) -> (r: IRelation)
    requires
        rec.tuples@.len() >= 1,
    ensures
        r@ == finished_record(
            RecordView {
                source: rec.source@,
                name: rec.name@,
                tuples: rec.tuples@.map_values(|t: ITuple| t@),
            },
        ),
{
    let ghost tv = tuple_views(rec.tuples@);
    let m = max_arity_of(&rec.tuples);
    proof {
        lemma_max_arity(tv);
    }
    // header
    let mut types: Vec<String> = Vec::new();
    let mut k: usize = 0;
    while k < m
        invariant
            k <= m,
            m as nat == max_arity(tv),
            tv == tuple_views(rec.tuples@),
            rec.tuples@.len() >= 1,
            forall|j: int| 0 <= j < tv.len() ==> tv[j].types.len() <= max_arity(tv),
            exists|j: int| 0 <= j < tv.len() && tv[j].types.len() == max_arity(tv),
            strs(types@) == header(tv).take(k as int),
        decreases m - k,
    {
        proof {
            let j = choose|j: int| 0 <= j < tv.len() && tv[j].types.len() == max_arity(tv);
            assert(tv[j] == rec.tuples@[j]@);
        }
        let h = header_type_at(&rec.tuples, k);
        let ghost prev = types@;
        types.push(h);
        assert(strs(types@) =~= strs(prev).push(h@));
        assert(header(tv).take(k + 1) =~= header(tv).take(k as int).push(header_at(tv, k as int)));
        k = k + 1;
    }
    assert(header(tv).take(m as int) =~= header(tv));
    // tuples: longest first, each group in creation order
    let mut longest: Vec<ITuple> = Vec::new();
    let mut shorter: Vec<ITuple> = Vec::new();
    let mut i: usize = 0;
    let ghost pl = is_longest(tv);
    let ghost ps = is_shorter(tv);
    while i < rec.tuples.len()
        invariant
            i <= rec.tuples@.len(),
            m as nat == max_arity(tv),
            tv == tuple_views(rec.tuples@),
            pl == is_longest(tv),
            ps == is_shorter(tv),
            tuple_views(longest@) == tv.take(i as int).filter(pl),
            tuple_views(shorter@) == tv.take(i as int).filter(ps),
        decreases rec.tuples.len() - i,
    {
        let t = copy_tuple(&rec.tuples[i]);
        let ghost tk = tv.take(i + 1);
        assert(tk.drop_last() =~= tv.take(i as int));
        assert(tk.last() == rec.tuples@[i as int]@);
        reveal(Seq::filter);
        if rec.tuples[i].types.len() == m {
            let ghost prev = longest@;
            longest.push(t);
            assert(tuple_views(longest@) =~= tuple_views(prev).push(t@));
            assert(pl(tk.last()));
            assert(!ps(tk.last()));
        } else {
            let ghost prev = shorter@;
            shorter.push(t);
            assert(tuple_views(shorter@) =~= tuple_views(prev).push(t@));
            assert(!pl(tk.last()));
            assert(ps(tk.last()));
        }
        i = i + 1;
    }
    assert(tv.take(rec.tuples@.len() as int) =~= tv);
    let ghost l = longest@;
    let ghost sh = shorter@;
    longest.append(&mut shorter);
    assert(tuple_views(longest@) =~= tuple_views(l) + tuple_views(sh));
    IRelation {
        id: make_relation_id(rec.source.as_str(), rec.name.as_str()),
        name: rec.name.clone(),
        types,
        tuples: longest,
    }
}

// ---------------------------------------------------------------------------
// Byte-array labels
// ---------------------------------------------------------------------------

/// The items of a byte-array label, each byte's decimal spelling followed
/// by `, ` except the last.
pub open spec fn bytes_items(b: Seq<u8>) -> Seq<char>
    decreases b.len(),
{
    if b.len() == 0 {
        Seq::empty()
    } else if b.len() == 1 {
        decimal(b[0] as nat)
    } else {
        decimal(b[0] as nat) + seq![',', ' '] + bytes_items(b.drop_first())
    }
}

/// Rust's `Debug` spelling of a byte slice: `[1, 2, 3]`, or `[]`.
pub open spec fn bytes_label(b: Seq<u8>) -> Seq<char> {
    seq!['['] + bytes_items(b) + seq![']']
}

proof fn lemma_bytes_items_push(b: Seq<u8>, x: u8)
    ensures
        bytes_items(b.push(x)) == if b.len() == 0 {
            decimal(x as nat)
        } else {
            bytes_items(b) + seq![',', ' '] + decimal(x as nat)
        },
    decreases b.len(),
{
    if b.len() == 0 {
        assert(b.push(x) =~= seq![x]);
    } else if b.len() == 1 {
        assert(b.push(x).drop_first() =~= seq![x]);
        assert(bytes_items(seq![x]) == decimal(x as nat));
    } else {
        lemma_bytes_items_push(b.drop_first(), x);
        assert(b.push(x).drop_first() =~= b.drop_first().push(x));
        assert(bytes_items(b.push(x)) =~= decimal(b[0] as nat) + seq![',', ' '] + (bytes_items(
            b.drop_first(),
        ) + seq![',', ' '] + decimal(x as nat)));
    }
}

/// The label of a byte array: `[1, 2, 3]`, or `[]`.
pub fn format_bytes_label(v: &[u8]) -> (s: String)
    ensures
        s@ == bytes_label(v@),
{
    let mut s = String::new();
    push_char(&mut s, '[');
    let mut i: usize = 0;
    while i < v.len()
        invariant
            i <= v@.len(),
            s@ == seq!['['] + bytes_items(v@.take(i as int)),
        decreases v.len() - i,
    {
        proof {
            lemma_bytes_items_push(v@.take(i as int), v@[i as int]);
            assert(v@.take(i + 1) =~= v@.take(i as int).push(v@[i as int]));
        }
        if i > 0 {
            push_char(&mut s, ',');
            push_char(&mut s, ' ');
        }
        let d = format_unsigned(v[i] as u128);
        s.append(d.as_str());
        assert(s@ =~= seq!['['] + bytes_items(v@.take(i + 1)));
        i = i + 1;
    }
    push_char(&mut s, ']');
    assert(v@.take(v@.len() as int) =~= v@);
    assert(s@ =~= bytes_label(v@));
    s
}


// ---------------------------------------------------------------------------
// Laws of relationalization
// ---------------------------------------------------------------------------

/// Interning the same key twice gives the same atom and changes nothing
/// the second time: equal scalars of one type share an atom.
pub proof fn lemma_intern_twice(s: RelState, ty: Seq<char>, label: Seq<char>, bits: Option<u64>)
    requires
        state_ok(s),
    ensures
        step_intern(step_intern(s, ty, label, bits).0, ty, label, bits) == step_intern(
            s,
            ty,
            label,
            bits,
        ),
{
    let (s1, id1) = step_intern(s, ty, label, bits);
    lemma_find_interned(s.interned, ty, label, bits);
    lemma_intern_ok(s, ty, label, bits);
    lemma_find_interned(s1.interned, ty, label, bits);
    match find_interned(s.interned, ty, label, bits) {
        Some(i) => {
            assert(s1 == s);
        },
        None => {
            let n = s.interned.len() as int;
            assert(s1.interned[n].ty == ty && s1.interned[n].label == label && s1.interned[n].bits
                == bits);
            match find_interned(s1.interned, ty, label, bits) {
                Some(j) => {
                    if j != n {
                        assert(!(s1.interned[j].ty == s1.interned[n].ty && s1.interned[j].label
                            == s1.interned[n].label && s1.interned[j].bits == s1.interned[n].bits));
                    }
                },
                None => {
                    assert(false);
                },
            }
        },
    }
}

/// Once a key is interned, every later state that kept the interning table
/// (any state the operations lead to) gives the same atom for it, and
/// interning it again changes nothing: the payload-free values (`None`,
/// `()`, a unit struct or unit variant by its name, each `bool`) and equal
/// scalars are one shared atom over a whole walk.
pub proof fn lemma_intern_stable(
    s: RelState,
    t: RelState,
    ty: Seq<char>,
    label: Seq<char>,
    bits: Option<u64>,
)
    requires
        state_ok(t),
        s.interned.len() <= t.interned.len(),
        t.interned.take(s.interned.len() as int) == s.interned,
        find_interned(s.interned, ty, label, bits) is Some,
    ensures
        step_intern(t, ty, label, bits) == (t, step_intern(s, ty, label, bits).1),
{
    lemma_find_interned(s.interned, ty, label, bits);
    lemma_find_interned(t.interned, ty, label, bits);
    let i = find_interned(s.interned, ty, label, bits)->0;
    assert(t.interned[i] == s.interned[i]);
    let j = find_interned(t.interned, ty, label, bits)->0;
    if i != j {
        if i < j {
            assert(!(t.interned[i].ty == t.interned[j].ty && t.interned[i].label
                == t.interned[j].label && t.interned[i].bits == t.interned[j].bits));
        } else {
            assert(!(t.interned[j].ty == t.interned[i].ty && t.interned[j].label
                == t.interned[i].label && t.interned[j].bits == t.interned[i].bits));
        }
    }
}

/// Interning two different keys gives two different atoms: scalars that
/// differ in type, label or bit pattern (such as `0.0` and `-0.0`) never
/// share an atom.
pub proof fn lemma_intern_distinct(
    s: RelState,
    ty1: Seq<char>,
    label1: Seq<char>,
    bits1: Option<u64>,
    ty2: Seq<char>,
    label2: Seq<char>,
    bits2: Option<u64>,
)
    requires
        state_ok(s),
        !(ty1 == ty2 && label1 == label2 && bits1 == bits2),
    ensures
        step_intern(step_intern(s, ty1, label1, bits1).0, ty2, label2, bits2).1 != step_intern(
            s,
            ty1,
            label1,
            bits1,
        ).1,
{
    let (s1, a) = step_intern(s, ty1, label1, bits1);
    lemma_intern_ok(s, ty1, label1, bits1);
    lemma_find_interned(s.interned, ty1, label1, bits1);
    let i1: int = match find_interned(s.interned, ty1, label1, bits1) {
        Some(i) => i,
        None => s.interned.len() as int,
    };
    assert(0 <= i1 < s1.interned.len() && s1.interned[i1].id == a && s1.interned[i1].ty == ty1
        && s1.interned[i1].label == label1 && s1.interned[i1].bits == bits1);
    lemma_find_interned(s1.interned, ty2, label2, bits2);
    match find_interned(s1.interned, ty2, label2, bits2) {
        Some(j) => {
            assert(j != i1);
            if j < i1 {
                assert(s1.interned[j].id != s1.interned[i1].id);
            } else {
                assert(s1.interned[i1].id != s1.interned[j].id);
            }
        },
        None => {
            assert(has_atom(s1, s1.interned[i1].id));
            lemma_emit_fresh(s1, ty2, label2);
        },
    }
}

/// Whether `id` names a shared atom of a payload-free or scalar value
/// keyed without a bit pattern (`None`, `()`, a unit struct or unit variant,
/// a `bool`, an integer, a `char`, a string, bytes).
pub open spec fn shared_by_label(s: RelState, id: Seq<char>) -> bool {
    exists|e: int| 0 <= e < s.interned.len() && s.interned[e].id == id && s.interned[e].bits is None
}

/// What interning a key without a bit pattern gives is such a shared atom
/// (the atoms of `serialize_none`, `serialize_unit`, `serialize_bool`, the
/// unit structs and variants, and the other label-keyed scalars).
pub proof fn lemma_interned_is_shared(s: RelState, ty: Seq<char>, label: Seq<char>)
    requires
        state_ok(s),
    ensures
        shared_by_label(step_intern(s, ty, label, None).0, step_intern(s, ty, label, None).1),
{
    lemma_find_interned(s.interned, ty, label, None);
    let t = step_intern(s, ty, label, None).0;
    match find_interned(s.interned, ty, label, None) {
        Some(i) => {
            assert(t.interned[i].id == step_intern(s, ty, label, None).1);
        },
        None => {
            let n = s.interned.len() as int;
            assert(t.interned[n].id == step_intern(s, ty, label, None).1);
        },
    }
}

/// Across a whole instance, a shared value keyed without a bit pattern has
/// one atom: two such atoms of the same type and label are the same atom
/// (so there is one `None` atom, one `()` atom, one atom per `bool` label
/// and one per unit struct name, however often each value occurs).
pub proof fn lemma_shared_atoms_unique(s: RelState)
    requires
        state_ok(s),
    ensures
        forall|p: int, q: int|
            0 <= p < finished(s).atoms.len() && 0 <= q < finished(s).atoms.len() && shared_by_label(
                s,
                #[trigger] finished(s).atoms[p].id,
            ) && shared_by_label(s, #[trigger] finished(s).atoms[q].id) && finished(s).atoms[p].ty
                == finished(s).atoms[q].ty && finished(s).atoms[p].label == finished(s).atoms[q].label
                ==> p == q,
{
    assert forall|p: int, q: int|
        0 <= p < finished(s).atoms.len() && 0 <= q < finished(s).atoms.len() && shared_by_label(
            s,
            #[trigger] finished(s).atoms[p].id,
        ) && shared_by_label(s, #[trigger] finished(s).atoms[q].id) && finished(s).atoms[p].ty
            == finished(s).atoms[q].ty && finished(s).atoms[p].label == finished(s).atoms[q].label
            implies p == q by {
        let a = s.atoms;
        let e1 = choose|e: int|
            0 <= e < s.interned.len() && s.interned[e].id == a[p].id && s.interned[e].bits is None;
        let e2 = choose|e: int|
            0 <= e < s.interned.len() && s.interned[e].id == a[q].id && s.interned[e].bits is None;
        assert(interned_atom(s, s.interned[e1]));
        assert(interned_atom(s, s.interned[e2]));
        let j1 = choose|j: int|
            0 <= j < a.len() && a[j] == (AtomView {
                id: s.interned[e1].id,
                ty: s.interned[e1].ty,
                label: s.interned[e1].label,
            });
        let j2 = choose|j: int|
            0 <= j < a.len() && a[j] == (AtomView {
                id: s.interned[e2].id,
                ty: s.interned[e2].ty,
                label: s.interned[e2].label,
            });
        // ids name one atom each
        assert(a[j1].id == atom_id(j1 as nat) && a[p].id == atom_id(p as nat));
        lemma_atom_id_injective(j1 as nat, p as nat);
        assert(a[j2].id == atom_id(j2 as nat) && a[q].id == atom_id(q as nat));
        lemma_atom_id_injective(j2 as nat, q as nat);
        if e1 != e2 {
            if e1 < e2 {
                assert(!(s.interned[e1].ty == s.interned[e2].ty && s.interned[e1].label
                    == s.interned[e2].label && s.interned[e1].bits == s.interned[e2].bits));
            } else {
                assert(!(s.interned[e2].ty == s.interned[e1].ty && s.interned[e2].label
                    == s.interned[e1].label && s.interned[e2].bits == s.interned[e1].bits));
            }
        }
        assert(a[p].id == a[q].id);
        assert(a[p].id == atom_id(p as nat) && a[q].id == atom_id(q as nat));
        lemma_atom_id_injective(p as nat, q as nat);
    }
}

/// No step forgets an interned key: each keeps the table as a prefix.
pub proof fn lemma_steps_keep_interned(
    s: RelState,
    ty: Seq<char>,
    label: Seq<char>,
    bits: Option<u64>,
    name: Seq<char>,
    t: TupleView,
    registered: Option<DecoratorsView>,
)
    ensures
        step_emit(s, ty, label).0.interned == s.interned,
        step_add_tuple(s, name, t).interned == s.interned,
        step_collect(s, name, registered).interned == s.interned,
        step_intern(s, ty, label, bits).0.interned.len() >= s.interned.len(),
        step_intern(s, ty, label, bits).0.interned.take(s.interned.len() as int) == s.interned,
{
    let u = step_intern(s, ty, label, bits).0;
    match find_interned(s.interned, ty, label, bits) {
        Some(_) => {
            assert(u.interned.take(s.interned.len() as int) =~= s.interned);
        },
        None => {
            assert(u.interned.take(s.interned.len() as int) =~= s.interned);
        },
    }
}

/// A new atom never has the id of an existing one: a NaN, which always
/// gets a new atom, shares nothing.
pub proof fn lemma_emit_fresh(s: RelState, ty: Seq<char>, label: Seq<char>)
    requires
        state_ok(s),
    ensures
        !has_atom(s, step_emit(s, ty, label).1),
{
    if has_atom(s, step_emit(s, ty, label).1) {
        let i = choose|i: int| 0 <= i < s.atoms.len() && s.atoms[i].id == step_emit(s, ty, label).1;
        assert(s.atoms[i].id == atom_id(i as nat));
        lemma_atom_id_injective(i as nat, s.atoms.len());
    }
}

/// Gathering the decorators of a struct type a second time adds nothing:
/// each type's decorators are gathered once.
pub proof fn lemma_collect_twice(
    s: RelState,
    name: Seq<char>,
    first: Option<DecoratorsView>,
    second: Option<DecoratorsView>,
)
    ensures
        step_collect(step_collect(s, name, first), name, second) == step_collect(s, name, first),
{
    let s1 = step_collect(s, name, first);
    if !(s.exclude == Some(name) || s.visited.contains(name)) {
        assert(s1.visited[s1.visited.len() - 1] == name);
        assert(s1.visited.contains(name));
    }
}

/// The atoms of a finished instance have distinct ids.
pub proof fn lemma_atom_ids_distinct(s: RelState)
    requires
        state_ok(s),
    ensures
        forall|i: int, j: int|
            0 <= i < j < finished(s).atoms.len() ==> #[trigger] finished(s).atoms[i].id
                != #[trigger] finished(s).atoms[j].id,
{
    assert forall|i: int, j: int|
        0 <= i < j < finished(s).atoms.len() implies #[trigger] finished(s).atoms[i].id
        != #[trigger] finished(s).atoms[j].id by {
        assert(s.atoms[i].id == atom_id(i as nat));
        assert(s.atoms[j].id == atom_id(j as nat));
        if s.atoms[i].id == s.atoms[j].id {
            lemma_atom_id_injective(i as nat, j as nat);
        }
    }
}

/// The records of a finished instance have distinct ids, and each id
/// spells the type of the record's source atoms and the relation's name.
pub proof fn lemma_record_ids(s: RelState)
    requires
        state_ok(s),
    ensures
        forall|i: int|
            0 <= i < s.records.len() ==> #[trigger] finished(s).relations[i].id == relation_id(
                s.records[i].source,
                s.records[i].name,
            ),
        forall|i: int, j: int|
            0 <= i < j < finished(s).relations.len() ==> #[trigger] finished(s).relations[i].id
                != #[trigger] finished(s).relations[j].id,
{
    assert forall|i: int, j: int|
        0 <= i < j < finished(s).relations.len() implies #[trigger] finished(s).relations[i].id
        != #[trigger] finished(s).relations[j].id by {
        let a = s.records[i];
        let b = s.records[j];
        assert(finished(s).relations[i] == finished_record(a));
        assert(finished(s).relations[j] == finished_record(b));
        if relation_id(a.source, a.name) == relation_id(b.source, b.name) {
            lemma_relation_id_injective(a.source, a.name, b.source, b.name);
        }
    }
}

pub(crate) proof fn lemma_filter_from<A>(ts: Seq<A>, p: spec_fn(A) -> bool)
    ensures
        forall|i: int|
            0 <= i < ts.filter(p).len() ==> exists|j: int| 0 <= j < ts.len() && ts[j] == #[trigger] ts.filter(p)[i],
    decreases ts.len(),
{
    reveal(Seq::filter);
    if ts.len() > 0 {
        lemma_filter_from(ts.drop_last(), p);
        let f = ts.filter(p);
        let g = ts.drop_last().filter(p);
        assert forall|i: int| 0 <= i < f.len() implies exists|j: int| 0 <= j < ts.len() && ts[j] == #[trigger] f[i] by {
            if i < g.len() {
                let j = choose|j: int| 0 <= j < ts.drop_last().len() && ts.drop_last()[j] == g[i];
                assert(ts[j] == f[i]);
            } else {
                assert(f[i] == ts.last());
                assert(ts[ts.len() - 1] == f[i]);
            }
        }
    }
}

/// Every tuple of a finished record joins atoms of the instance (whose
/// atoms are the state's), one per position, and its first type is the
/// source type its record's id spells.
pub proof fn lemma_tuples_declared(s: RelState)
    requires
        state_ok(s),
    ensures
        finished(s).atoms == s.atoms,
        forall|i: int, j: int|
            0 <= i < s.records.len() && 0 <= j < finished(s).relations[i].tuples.len() ==> tuple_ok(
                s,
                s.records[i].source,
                #[trigger] finished(s).relations[i].tuples[j],
            ),
{
    assert forall|i: int, j: int|
        0 <= i < s.records.len() && 0 <= j < finished(s).relations[i].tuples.len() implies tuple_ok(
        s,
        s.records[i].source,
        #[trigger] finished(s).relations[i].tuples[j],
    ) by {
        let ts = s.records[i].tuples;
        assert(finished(s).relations[i] == finished_record(s.records[i]));
        let l = ts.filter(is_longest(ts));
        let sh = ts.filter(is_shorter(ts));
        lemma_filter_from(ts, is_longest(ts));
        lemma_filter_from(ts, is_shorter(ts));
        let t = finished(s).relations[i].tuples[j];
        assert(t == (l + sh)[j]);
        if j < l.len() {
            assert(t == l[j]);
            let x = choose|x: int| 0 <= x < ts.len() && ts[x] == l[j];
            assert(tuple_ok(s, s.records[i].source, s.records[i].tuples[x]));
        } else {
            assert(t == sh[j - l.len()]);
            let x = choose|x: int| 0 <= x < ts.len() && ts[x] == sh[j - l.len()];
            assert(tuple_ok(s, s.records[i].source, s.records[i].tuples[x]));
        }
    }
}

/// Each finished record is of one source type: its header's first type,
/// the first type of each of its tuples, and the type of each tuple's
/// source atom are the type its id spells.
pub proof fn lemma_record_source(s: RelState, i: int)
    requires
        state_ok(s),
        0 <= i < s.records.len(),
    ensures
        finished(s).relations[i].types.len() >= 1,
        finished(s).relations[i].types[0] == s.records[i].source,
        finished(s).relations[i].id == relation_id(s.records[i].source, s.records[i].name),
        forall|j: int|
            0 <= j < finished(s).relations[i].tuples.len() ==> {
                let t = #[trigger] finished(s).relations[i].tuples[j];
                &&& t.types[0] == s.records[i].source
                &&& has_typed_atom(s, t.atoms[0], s.records[i].source)
            },
{
    let ts = s.records[i].tuples;
    assert(finished(s).relations[i] == finished_record(s.records[i]));
    lemma_tuples_declared(s);
    lemma_longest_first(s, i);
    lemma_first_with(ts, 0);
    assert(tuple_ok(s, s.records[i].source, ts[0]));
    assert(first_with(ts, 0) == 0);
    assert forall|j: int| 0 <= j < ts.len() && ts[j].types.len() > 0 implies #[trigger] ts[j].types[0]
        == ts[first_with(ts, 0)].types[0] by {
        assert(tuple_ok(s, s.records[i].source, ts[j]));
    }
    assert(header(ts)[0] == header_at(ts, 0));
    assert forall|j: int| 0 <= j < finished(s).relations[i].tuples.len() implies {
        let t = #[trigger] finished(s).relations[i].tuples[j];
        &&& t.types[0] == s.records[i].source
        &&& has_typed_atom(s, t.atoms[0], s.records[i].source)
    } by {
        assert(tuple_ok(s, s.records[i].source, finished(s).relations[i].tuples[j]));
    }
}

/// A finished record leads with a tuple of its largest arity, and its
/// header has exactly that many positions; no tuple is longer.
pub proof fn lemma_longest_first(s: RelState, i: int)
    requires
        state_ok(s),
        0 <= i < s.records.len(),
    ensures
        finished(s).relations[i].tuples.len() == s.records[i].tuples.len(),
        finished(s).relations[i].tuples[0].types.len() == finished(s).relations[i].types.len(),
        forall|j: int|
            0 <= j < finished(s).relations[i].tuples.len() ==> (
            #[trigger] finished(s).relations[i].tuples[j]).types.len()
                <= finished(s).relations[i].types.len(),
{
    let ts = s.records[i].tuples;
    assert(finished(s).relations[i] == finished_record(s.records[i]));
    assert(ts.len() >= 1);
    lemma_max_arity(ts);
    let l = ts.filter(is_longest(ts));
    let sh = ts.filter(is_shorter(ts));
    broadcast use vstd::seq_lib::group_filter_ensures;
    let k = choose|k: int| 0 <= k < ts.len() && ts[k].types.len() == max_arity(ts);
    assert(is_longest(ts)(ts[k]));
    assert(l.contains(ts[k]));
    assert(l.len() > 0);
    assert(is_longest(ts)(l[0]));
    lemma_filter_from(ts, is_longest(ts));
    lemma_filter_from(ts, is_shorter(ts));
    lemma_filter_partition(ts, max_arity(ts));
    assert forall|j: int| 0 <= j < (l + sh).len() implies (#[trigger] (l + sh)[j]).types.len()
        <= max_arity(ts) by {
        if j < l.len() {
            let x = choose|x: int| 0 <= x < ts.len() && ts[x] == l[j];
            assert((l + sh)[j] == l[j]);
        } else {
            let x = choose|x: int| 0 <= x < ts.len() && ts[x] == sh[j - l.len()];
            assert((l + sh)[j] == sh[j - l.len()]);
        }
    }
}

proof fn lemma_filter_partition(ts: Seq<TupleView>, m: nat)
    ensures
        ts.filter(|t: TupleView| t.types.len() == m).len() + ts.filter(
            |t: TupleView| t.types.len() != m,
        ).len() == ts.len(),
    decreases ts.len(),
{
    reveal(Seq::filter);
    if ts.len() > 0 {
        lemma_filter_partition(ts.drop_last(), m);
    }
}

} // verus!
