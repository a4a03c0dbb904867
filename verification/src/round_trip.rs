//! What reading a finished instance gives back of what a walk wrote.
//!
//! A walk is any interleaving of the relationalization steps: new atoms,
//! interned atoms, tuples, decorator collection, and elements added to one
//! positional container. Whatever else the walk does, as long as it adds no
//! `idx` tuple out of that container by other means, the reader's sequence
//! elements of the container are the elements added, in the order added,
//! and its map entries are the entries added. A relation written once out
//! of an atom (a wrapper's `value`, a variant's `variant_value`, a struct
//! field) reads back its target, and the atom a walk starts with is the
//! root the reader finds.

use vstd::prelude::*;
use crate::export::{
    atom_id, entry_tuple, find_atom, find_interned, find_record, finished, finished_record, has_atom,
    field_tuple, index_tuple, interned_atom, is_longest, is_shorter, lemma_add_tuple_ok, lemma_atom_id_injective,
    lemma_collect_ok, lemma_emit_ok, lemma_find_atom, lemma_find_interned, lemma_find_record,
    lemma_has_atom_grows, lemma_intern_ok, lemma_max_arity, longest_first, max_arity, state_ok, start_state, lemma_filter_from,
    step_add_tuple, step_collect, step_element, step_emit, step_intern, tuple_ok, has_typed_atom, RecordView,
    RelState,
};
use crate::annotations::DecoratorsView;
use crate::jsondata::{AtomView, RelationView, TupleView};
use crate::reify::{
    edges_of, entry_pairs, index_of, label_or_id, lemma_seq_elems_in_order, outgoing, seq_elems_of, targeted,
    target_of, builtin_shape, named_shape, any_shape_of, option_shape_of, AnyShapeView, OptionShapeView, field_pairs, struct_fields_of, source_names, lemma_source_names, IndexView,
    tuple_edges, EdgeView,
};
use crate::text::decimal;

verus! {

// ---------------------------------------------------------------------------
// The tuples out of one atom
// ---------------------------------------------------------------------------

/// Whether `t` leaves `src`.
pub open spec fn leaves(t: TupleView, src: Seq<char>) -> bool {
    t.atoms.len() >= 1 && t.atoms[0] == src
}

/// The atom lists of the tuples of `ts` that leave `src`, in order.
pub open spec fn src_atoms(ts: Seq<TupleView>, src: Seq<char>) -> Seq<Seq<Seq<char>>>
    decreases ts.len(),
{
    if ts.len() == 0 {
        Seq::empty()
    } else {
        let prev = src_atoms(ts.drop_last(), src);
        if leaves(ts.last(), src) {
            prev.push(ts.last().atoms)
        } else {
            prev
        }
    }
}

/// The atom lists of the tuples of relation `name` that leave `src`,
/// record by record.
pub open spec fn own_atoms(rs: Seq<RecordView>, src: Seq<char>, name: Seq<char>) -> Seq<
    Seq<Seq<char>>,
>
    decreases rs.len(),
{
    if rs.len() == 0 {
        Seq::empty()
    } else {
        own_atoms(rs.drop_last(), src, name) + if rs.last().name == name {
            src_atoms(rs.last().tuples, src)
        } else {
            Seq::empty()
        }
    }
}

/// The same over finished records.
pub open spec fn rels_own(rs: Seq<RelationView>, src: Seq<char>, name: Seq<char>) -> Seq<
    Seq<Seq<char>>,
>
    decreases rs.len(),
{
    if rs.len() == 0 {
        Seq::empty()
    } else {
        rels_own(rs.drop_last(), src, name) + if rs.last().name == name {
            src_atoms(rs.last().tuples, src)
        } else {
            Seq::empty()
        }
    }
}

proof fn lemma_outgoing_concat(a: Seq<EdgeView>, b: Seq<EdgeView>, src: Seq<char>, name: Seq<char>)
    ensures
        outgoing(a + b, src, name) == outgoing(a, src, name) + outgoing(b, src, name),
    decreases b.len(),
{
    if b.len() == 0 {
        assert(a + b =~= a);
        assert(outgoing(a, src, name) + outgoing(b, src, name) =~= outgoing(a, src, name));
    } else {
        assert((a + b).drop_last() =~= a + b.drop_last());
        assert((a + b).last() == b.last());
        lemma_outgoing_concat(a, b.drop_last(), src, name);
        let e = b.last();
        if e.name == name && e.atoms.len() >= 1 && e.atoms[0] == src {
            assert((outgoing(a, src, name) + outgoing(b.drop_last(), src, name)).push(e.atoms)
                =~= outgoing(a, src, name) + outgoing(b.drop_last(), src, name).push(e.atoms));
        }
    }
}

proof fn lemma_outgoing_tuple_edges(n: Seq<char>, ts: Seq<TupleView>, src: Seq<char>, name: Seq<char>)
    ensures
        outgoing(tuple_edges(n, ts), src, name) == if n == name {
            src_atoms(ts, src)
        } else {
            Seq::empty()
        },
    decreases ts.len(),
{
    if ts.len() > 0 {
        lemma_outgoing_tuple_edges(n, ts.drop_last(), src, name);
        let prev = tuple_edges(n, ts.drop_last());
        if ts.last().atoms.len() >= 1 {
            assert(tuple_edges(n, ts) == prev.push(EdgeView { name: n, atoms: ts.last().atoms }));
            assert(prev.push(EdgeView { name: n, atoms: ts.last().atoms }).drop_last() =~= prev);
        }
    }
}

proof fn lemma_outgoing_edges_of(rs: Seq<RelationView>, src: Seq<char>, name: Seq<char>)
    ensures
        outgoing(edges_of(rs), src, name) == rels_own(rs, src, name),
    decreases rs.len(),
{
    if rs.len() > 0 {
        lemma_outgoing_edges_of(rs.drop_last(), src, name);
        lemma_outgoing_concat(
            edges_of(rs.drop_last()),
            tuple_edges(rs.last().name, rs.last().tuples),
            src,
            name,
        );
        lemma_outgoing_tuple_edges(rs.last().name, rs.last().tuples, src, name);
    }
}

proof fn lemma_src_atoms_concat(a: Seq<TupleView>, b: Seq<TupleView>, src: Seq<char>)
    ensures
        src_atoms(a + b, src) == src_atoms(a, src) + src_atoms(b, src),
    decreases b.len(),
{
    if b.len() == 0 {
        assert(a + b =~= a);
        assert(src_atoms(a, src) + src_atoms(b, src) =~= src_atoms(a, src));
    } else {
        assert((a + b).drop_last() =~= a + b.drop_last());
        assert((a + b).last() == b.last());
        lemma_src_atoms_concat(a, b.drop_last(), src);
        if leaves(b.last(), src) {
            assert((src_atoms(a, src) + src_atoms(b.drop_last(), src)).push(b.last().atoms)
                =~= src_atoms(a, src) + src_atoms(b.drop_last(), src).push(b.last().atoms));
        }
    }
}

proof fn lemma_src_atoms_filter(ts: Seq<TupleView>, src: Seq<char>, p: spec_fn(TupleView) -> bool)
    ensures
        (forall|i: int| 0 <= i < ts.len() && leaves(ts[i], src) ==> p(ts[i])) ==> src_atoms(
            ts.filter(p),
            src,
        ) == src_atoms(ts, src),
        (forall|i: int| 0 <= i < ts.len() && leaves(ts[i], src) ==> !p(ts[i])) ==> src_atoms(
            ts.filter(p),
            src,
        ) == Seq::<Seq<Seq<char>>>::empty(),
    decreases ts.len(),
{
    reveal(Seq::filter);
    if ts.len() > 0 {
        lemma_src_atoms_filter(ts.drop_last(), src, p);
        let d = ts.drop_last();
        assert(forall|i: int| 0 <= i < d.len() ==> d[i] == ts[i]);
        let f = ts.filter(p);
        if p(ts.last()) {
            assert(f == d.filter(p).push(ts.last()));
            assert(f.drop_last() =~= d.filter(p));
            assert(f.last() == ts.last());
        }
        if (forall|i: int| 0 <= i < ts.len() && leaves(ts[i], src) ==> !p(ts[i])) {
            assert(forall|i: int| 0 <= i < d.len() && leaves(d[i], src) ==> !p(d[i]));
            assert(leaves(ts[ts.len() - 1], src) ==> !p(ts[ts.len() - 1]));
        }
        if (forall|i: int| 0 <= i < ts.len() && leaves(ts[i], src) ==> p(ts[i])) {
            assert(forall|i: int| 0 <= i < d.len() && leaves(d[i], src) ==> p(d[i]));
            assert(leaves(ts[ts.len() - 1], src) ==> p(ts[ts.len() - 1]));
        }
    }
}

/// Each tuple of `ts` leaving `src` has its atom list among `src_atoms`.
proof fn lemma_src_atoms_from(ts: Seq<TupleView>, src: Seq<char>)
    ensures
        forall|i: int|
            0 <= i < ts.len() && leaves(ts[i], src) ==> src_atoms(ts, src).contains(
                #[trigger] ts[i].atoms,
            ),
    decreases ts.len(),
{
    if ts.len() > 0 {
        lemma_src_atoms_from(ts.drop_last(), src);
        let d = ts.drop_last();
        let sa = src_atoms(ts, src);
        let sd = src_atoms(d, src);
        assert forall|i: int| 0 <= i < ts.len() && leaves(ts[i], src) implies sa.contains(
            #[trigger] ts[i].atoms,
        ) by {
            if i < ts.len() - 1 {
                assert(d[i] == ts[i]);
                assert(sd.contains(d[i].atoms));
                let k = choose|k: int| 0 <= k < sd.len() && sd[k] == d[i].atoms;
                assert(sa[k] == sd[k]);
            } else {
                assert(sa[sa.len() - 1] == ts.last().atoms);
            }
        }
    }
}

proof fn lemma_own_atoms_contains(rs: Seq<RecordView>, src: Seq<char>, name: Seq<char>)
    ensures
        forall|j: int, x: Seq<Seq<char>>|
            0 <= j < rs.len() && rs[j].name == name && #[trigger] src_atoms(rs[j].tuples, src).contains(x)
                ==> own_atoms(rs, src, name).contains(x),
    decreases rs.len(),
{
    if rs.len() > 0 {
        lemma_own_atoms_contains(rs.drop_last(), src, name);
        let d = rs.drop_last();
        let od = own_atoms(d, src, name);
        let seg = if rs.last().name == name {
            src_atoms(rs.last().tuples, src)
        } else {
            Seq::empty()
        };
        assert forall|j: int, x: Seq<Seq<char>>|
            0 <= j < rs.len() && rs[j].name == name && #[trigger] src_atoms(rs[j].tuples, src).contains(x)
            implies own_atoms(rs, src, name).contains(x) by {
            if j < rs.len() - 1 {
                assert(d[j] == rs[j]);
                assert(od.contains(x));
                let k = choose|k: int| 0 <= k < od.len() && od[k] == x;
                assert((od + seg)[k] == x);
            } else {
                let k = choose|k: int| 0 <= k < seg.len() && seg[k] == x;
                assert((od + seg)[od.len() + k] == x);
            }
        }
    }
}


proof fn lemma_longest_first_keeps(ts: Seq<TupleView>, src: Seq<char>)
    requires
        forall|i: int| 0 <= i < ts.len() && leaves(ts[i], src) ==> ts[i].types.len() == max_arity(ts),
    ensures
        src_atoms(longest_first(ts), src) == src_atoms(ts, src),
{
    let l = ts.filter(is_longest(ts));
    let sh = ts.filter(is_shorter(ts));
    lemma_src_atoms_concat(l, sh, src);
    lemma_src_atoms_filter(ts, src, is_longest(ts));
    lemma_src_atoms_filter(ts, src, is_shorter(ts));
    assert forall|i: int| 0 <= i < ts.len() && leaves(ts[i], src) implies is_longest(ts)(ts[i]) by {}
    assert forall|i: int| 0 <= i < ts.len() && leaves(ts[i], src) implies !is_shorter(ts)(ts[i]) by {}
    assert(src_atoms(ts, src) + Seq::<Seq<Seq<char>>>::empty() =~= src_atoms(ts, src));
}

proof fn lemma_rels_own_finished(rs: Seq<RecordView>, src: Seq<char>, name: Seq<char>)
    requires
        forall|j: int, i: int|
            0 <= j < rs.len() && rs[j].name == name && 0 <= i < rs[j].tuples.len() && leaves(
                #[trigger] rs[j].tuples[i],
                src,
            ) ==> rs[j].tuples[i].types.len() == max_arity(rs[j].tuples),
    ensures
        rels_own(rs.map_values(|r: RecordView| finished_record(r)), src, name) == own_atoms(
            rs,
            src,
            name,
        ),
    decreases rs.len(),
{
    if rs.len() > 0 {
        let f = rs.map_values(|r: RecordView| finished_record(r));
        let d = rs.drop_last();
        assert(f.drop_last() =~= d.map_values(|r: RecordView| finished_record(r)));
        assert forall|j: int, i: int|
            0 <= j < d.len() && d[j].name == name && 0 <= i < d[j].tuples.len() && leaves(
                #[trigger] d[j].tuples[i],
                src,
            ) implies d[j].tuples[i].types.len() == max_arity(d[j].tuples) by {
            assert(d[j] == rs[j]);
        }
        lemma_rels_own_finished(d, src, name);
        let last = rs.last();
        assert(f.last() == finished_record(last));
        if last.name == name {
            assert forall|i: int| 0 <= i < last.tuples.len() && leaves(last.tuples[i], src) implies last.tuples[i].types.len()
                == max_arity(last.tuples) by {
                assert(rs[rs.len() - 1] == last);
                assert(leaves(rs[rs.len() - 1].tuples[i], src));
            }
            lemma_longest_first_keeps(last.tuples, src);
        }
    }
}

/// Reading a finished instance gives, as the sequence elements of `c`,
/// the third atoms of the `idx` tuples out of `c`, provided those tuples,
/// record by record and in the order made, name positions labelled `0`,
/// `1`, `2`, ...
pub proof fn lemma_read_back_elements(s: RelState, c: Seq<char>, elems: Seq<Seq<char>>)
    requires
        state_ok(s),
        elems.len() <= usize::MAX + 1,
        own_atoms(s.records, c, "idx"@).len() == elems.len(),
        forall|k: int|
            0 <= k < elems.len() ==> {
                let t = #[trigger] own_atoms(s.records, c, "idx"@)[k];
                &&& t.len() == 3
                &&& t[2] == elems[k]
                &&& label_or_id(s.atoms, t[1]) == decimal(k as nat)
            },
    ensures
        seq_elems_of(index_of(finished(s)), c) == elems,
{
    let n = "idx"@;
    let own = own_atoms(s.records, c, n);
    lemma_own_atoms_contains(s.records, c, n);
    assert forall|j: int, i: int|
        0 <= j < s.records.len() && s.records[j].name == n && 0 <= i < s.records[j].tuples.len()
            && leaves(#[trigger] s.records[j].tuples[i], c) implies s.records[j].tuples[i].types.len()
        == max_arity(s.records[j].tuples) by {
        let ts = s.records[j].tuples;
        lemma_src_atoms_from(ts, c);
        lemma_max_arity(ts);
        assert(src_atoms(ts, c).contains(ts[i].atoms));
        assert(own.contains(ts[i].atoms));
        let k = choose|k: int| 0 <= k < own.len() && own[k] == ts[i].atoms;
        assert(own[k].len() == 3);
        assert(tuple_ok(s, s.records[j].source, s.records[j].tuples[i]));
        let m = choose|m: int| 0 <= m < ts.len() && ts[m].types.len() == max_arity(ts);
        assert(tuple_ok(s, s.records[j].source, s.records[j].tuples[m]));
    }
    lemma_rels_own_finished(s.records, c, n);
    lemma_outgoing_edges_of(finished(s).relations, c, n);
    let ix = index_of(finished(s));
    assert(ix.atoms == s.atoms);
    assert(outgoing(ix.edges, c, n) == own);
    lemma_seq_elems_in_order(ix, c, elems);
}


// ---------------------------------------------------------------------------
// Writing elements
// ---------------------------------------------------------------------------

/// A tuple-free list of tuples out of `src` has no atom lists.
proof fn lemma_src_atoms_none(ts: Seq<TupleView>, src: Seq<char>)
    requires
        forall|i: int| 0 <= i < ts.len() ==> !leaves(#[trigger] ts[i], src),
    ensures
        src_atoms(ts, src).len() == 0,
    decreases ts.len(),
{
    if ts.len() > 0 {
        assert(forall|i: int| 0 <= i < ts.drop_last().len() ==> ts.drop_last()[i] == ts[i]);
        lemma_src_atoms_none(ts.drop_last(), src);
        assert(!leaves(ts[ts.len() - 1], src));
    }
}

/// When only record `i` (of relation `name`) has tuples out of `src`, the
/// tuples out of `src` are that record's.
proof fn lemma_own_single(rs: Seq<RecordView>, src: Seq<char>, name: Seq<char>, i: int)
    requires
        forall|j: int| 0 <= j < rs.len() && j != i && #[trigger] rs[j].name == name ==> src_atoms(
            rs[j].tuples,
            src,
        ).len() == 0,
    ensures
        0 <= i < rs.len() && rs[i].name == name ==> own_atoms(rs, src, name) == src_atoms(
            rs[i].tuples,
            src,
        ),
        !(0 <= i < rs.len() && rs[i].name == name) ==> own_atoms(rs, src, name).len() == 0,
    decreases rs.len(),
{
    if rs.len() > 0 {
        let d = rs.drop_last();
        assert forall|j: int| 0 <= j < d.len() && j != i && #[trigger] d[j].name == name implies src_atoms(
            d[j].tuples,
            src,
        ).len() == 0 by {
            assert(d[j] == rs[j]);
        }
        lemma_own_single(d, src, name, i);
        let n = rs.len() - 1;
        if i == n {
            if rs[i].name == name {
                assert(own_atoms(d, src, name) =~= Seq::<Seq<Seq<char>>>::empty());
                assert(own_atoms(rs, src, name) =~= src_atoms(rs[i].tuples, src));
            }
        } else {
            if rs.last().name == name {
                assert(rs[n].name == name);
                assert(src_atoms(rs[n].tuples, src).len() == 0);
            }
            if 0 <= i < rs.len() && rs[i].name == name {
                assert(d[i] == rs[i]);
                assert(own_atoms(rs, src, name) =~= own_atoms(d, src, name));
            }
        }
    }
}

/// Replacing record `i` by one with the same name and the same tuples out of
/// `src` keeps the tuples out of `src`.
proof fn lemma_own_update(rs: Seq<RecordView>, src: Seq<char>, name: Seq<char>, i: int, r: RecordView)
    requires
        0 <= i < rs.len(),
        r.name == rs[i].name,
        r.name == name ==> src_atoms(r.tuples, src) == src_atoms(rs[i].tuples, src),
    ensures
        own_atoms(rs.update(i, r), src, name) == own_atoms(rs, src, name),
    decreases rs.len(),
{
    let u = rs.update(i, r);
    if i == rs.len() - 1 {
        assert(u.drop_last() =~= rs.drop_last());
    } else {
        assert(u.drop_last() =~= rs.drop_last().update(i, r));
        lemma_own_update(rs.drop_last(), src, name, i, r);
    }
}

/// `find_atom` finds the atom an id names, ids being distinct.
proof fn lemma_find_unique(s: RelState, j: int)
    requires
        state_ok(s),
        0 <= j < s.atoms.len(),
    ensures
        find_atom(s.atoms, s.atoms[j].id) == Some(j),
        label_or_id(s.atoms, s.atoms[j].id) == s.atoms[j].label,
{
    lemma_find_atom(s.atoms, s.atoms[j].id);
    let i = find_atom(s.atoms, s.atoms[j].id)->0;
    assert(s.atoms[i].id == atom_id(i as nat));
    assert(s.atoms[j].id == atom_id(j as nat));
    lemma_atom_id_injective(i as nat, j as nat);
}

/// Labels of existing atoms survive every step: atoms are only appended.
proof fn lemma_label_stable(s: RelState, t: RelState, x: Seq<char>)
    requires
        state_ok(s),
        state_ok(t),
        s.atoms.len() <= t.atoms.len(),
        forall|i: int| 0 <= i < s.atoms.len() ==> t.atoms[i] == s.atoms[i],
        has_atom(s, x),
    ensures
        label_or_id(t.atoms, x) == label_or_id(s.atoms, x),
        has_atom(t, x),
{
    let j = choose|j: int| 0 <= j < s.atoms.len() && s.atoms[j].id == x;
    lemma_find_unique(s, j);
    assert(t.atoms[j] == s.atoms[j]);
    lemma_find_unique(t, j);
    lemma_has_atom_grows(s, t, x);
}

/// Every tuple of relation `n` out of `c` is filed under the source type
/// `ty`.
pub open spec fn filed_under(s: RelState, c: Seq<char>, n: Seq<char>, ty: Seq<char>) -> bool {
    forall|j: int, i: int|
        0 <= j < s.records.len() && s.records[j].name == n && 0 <= i < s.records[j].tuples.len()
            && leaves(#[trigger] s.records[j].tuples[i], c) ==> s.records[j].source == ty
}

/// A tuple joining atoms of `s`, with one to three positions, whose source
/// atom has the type of its first position.
pub open spec fn tuple_valid(s: RelState, t: TupleView) -> bool {
    &&& t.atoms.len() == t.types.len()
    &&& 1 <= t.types.len() <= 3
    &&& has_typed_atom(s, t.atoms[0], t.types[0])
    &&& forall|k: int| 0 <= k < t.atoms.len() ==> has_atom(s, #[trigger] t.atoms[k])
}

/// Adding a tuple that is not one of relation `n` out of `c` keeps the
/// tuples of `n` out of `c`.
proof fn lemma_own_keep(s: RelState, c: Seq<char>, n: Seq<char>, ty: Seq<char>, name: Seq<char>, tu: TupleView)
    requires
        state_ok(s),
        tuple_valid(s, tu),
        !(name == n && leaves(tu, c)),
        filed_under(s, c, n, ty),
    ensures
        state_ok(step_add_tuple(s, name, tu)),
        own_atoms(step_add_tuple(s, name, tu).records, c, n) == own_atoms(s.records, c, n),
        filed_under(step_add_tuple(s, name, tu), c, n, ty),
        step_add_tuple(s, name, tu).atoms == s.atoms,
{
    lemma_add_tuple_ok(s, name, tu);
    let u = step_add_tuple(s, name, tu);
    let rs = s.records;
    let source = tu.types[0];
    lemma_find_record(rs, source, name);
    match find_record(rs, source, name) {
        Some(i) => {
            let r2 = RecordView { tuples: rs[i].tuples.push(tu), ..rs[i] };
            assert(u.records == rs.update(i, r2));
            if r2.name == n {
                assert(!leaves(tu, c));
                assert(rs[i].tuples.push(tu).drop_last() =~= rs[i].tuples);
                assert(src_atoms(r2.tuples, c) == src_atoms(rs[i].tuples, c));
            }
            lemma_own_update(rs, c, n, i, r2);
            assert forall|j: int, x: int|
                0 <= j < u.records.len() && u.records[j].name == n && 0 <= x < u.records[j].tuples.len()
                    && leaves(#[trigger] u.records[j].tuples[x], c) implies u.records[j].source == ty by {
                if j != i {
                    assert(u.records[j] == rs[j]);
                    assert(leaves(s.records[j].tuples[x], c));
                } else if x < rs[i].tuples.len() {
                    assert(u.records[j].tuples[x] == rs[i].tuples[x]);
                    assert(leaves(s.records[j].tuples[x], c));
                } else {
                    assert(u.records[j].tuples[x] == tu);
                    assert(u.records[j].name == name);
                }
            }
        },
        None => {
            let r2 = RecordView { source, name, tuples: seq![tu] };
            assert(u.records == rs.push(r2));
            assert(rs.push(r2).drop_last() =~= rs);
            if name == n {
                assert(!leaves(tu, c));
                assert(seq![tu].drop_last() =~= Seq::<TupleView>::empty());
                assert(src_atoms(Seq::<TupleView>::empty(), c).len() == 0);
                assert(src_atoms(seq![tu], c).len() == 0);
            }
            assert(own_atoms(u.records, c, n) =~= own_atoms(rs, c, n));
            assert forall|j: int, x: int|
                0 <= j < u.records.len() && u.records[j].name == n && 0 <= x < u.records[j].tuples.len()
                    && leaves(#[trigger] u.records[j].tuples[x], c) implies u.records[j].source == ty by {
                if j < rs.len() {
                    assert(u.records[j] == rs[j]);
                    assert(leaves(s.records[j].tuples[x], c));
                } else {
                    assert(u.records[j] == r2);
                    assert(u.records[j].tuples[x] == tu);
                }
            }
        },
    }
}

/// Adding a tuple of relation `n` out of `c`, filed under `ty`, appends it
/// to the tuples of `n` out of `c`.
proof fn lemma_own_append(s: RelState, c: Seq<char>, n: Seq<char>, ty: Seq<char>, tu: TupleView)
    requires
        state_ok(s),
        tuple_valid(s, tu),
        leaves(tu, c),
        tu.types[0] == ty,
        filed_under(s, c, n, ty),
    ensures
        state_ok(step_add_tuple(s, n, tu)),
        own_atoms(step_add_tuple(s, n, tu).records, c, n) == own_atoms(s.records, c, n).push(tu.atoms),
        filed_under(step_add_tuple(s, n, tu), c, n, ty),
        step_add_tuple(s, n, tu).atoms == s.atoms,
{
    lemma_add_tuple_ok(s, n, tu);
    let s2 = step_add_tuple(s, n, tu);
    let rs = s.records;
    lemma_find_record(rs, ty, n);
    let own = own_atoms(rs, c, n);
    match find_record(rs, ty, n) {
        Some(i) => {
            assert forall|j: int| 0 <= j < rs.len() && j != i && #[trigger] rs[j].name == n implies src_atoms(
                rs[j].tuples,
                c,
            ).len() == 0 by {
                assert forall|x: int| 0 <= x < rs[j].tuples.len() implies !leaves(#[trigger] rs[j].tuples[x], c) by {
                    if leaves(rs[j].tuples[x], c) {
                        assert(rs[j].source == ty);
                        if j < i {
                            assert(!(rs[j].source == rs[i].source && rs[j].name == rs[i].name));
                        } else {
                            assert(!(rs[i].source == rs[j].source && rs[i].name == rs[j].name));
                        }
                    }
                }
                lemma_src_atoms_none(rs[j].tuples, c);
            }
            lemma_own_single(rs, c, n, i);
            let r2 = RecordView { tuples: rs[i].tuples.push(tu), ..rs[i] };
            assert(s2.records == rs.update(i, r2));
            assert(rs[i].tuples.push(tu).drop_last() =~= rs[i].tuples);
            assert(src_atoms(r2.tuples, c) == src_atoms(rs[i].tuples, c).push(tu.atoms));
            assert forall|j: int| 0 <= j < rs.update(i, r2).len() && j != i && #[trigger] rs.update(
                i,
                r2,
            )[j].name == n implies src_atoms(rs.update(i, r2)[j].tuples, c).len() == 0 by {
                assert(rs.update(i, r2)[j] == rs[j]);
            }
            lemma_own_single(rs.update(i, r2), c, n, i);
            assert(own_atoms(s2.records, c, n) == own.push(tu.atoms));
            assert forall|j: int, x: int|
                0 <= j < s2.records.len() && s2.records[j].name == n && 0 <= x
                    < s2.records[j].tuples.len() && leaves(#[trigger] s2.records[j].tuples[x], c)
                implies s2.records[j].source == ty by {
                if j != i {
                    assert(s2.records[j] == rs[j]);
                    assert(leaves(s.records[j].tuples[x], c));
                } else {
                    assert(s2.records[j].source == rs[i].source);
                }
            }
        },
        None => {
            assert forall|j: int| 0 <= j < rs.len() && j != -1 && #[trigger] rs[j].name == n implies src_atoms(
                rs[j].tuples,
                c,
            ).len() == 0 by {
                assert forall|x: int| 0 <= x < rs[j].tuples.len() implies !leaves(#[trigger] rs[j].tuples[x], c) by {
                    if leaves(rs[j].tuples[x], c) {
                        assert(rs[j].source == ty);
                    }
                }
                lemma_src_atoms_none(rs[j].tuples, c);
            }
            lemma_own_single(rs, c, n, -1);
            assert(own.len() == 0);
            let r2 = RecordView { source: ty, name: n, tuples: seq![tu] };
            assert(s2.records == rs.push(r2));
            assert(rs.push(r2).drop_last() =~= rs);
            assert(seq![tu].drop_last() =~= Seq::<TupleView>::empty());
            assert(seq![tu].last() == tu);
            assert(src_atoms(Seq::<TupleView>::empty(), c).len() == 0);
            assert(src_atoms(seq![tu], c) =~= seq![tu.atoms]);
            assert(own_atoms(s2.records, c, n) =~= own.push(tu.atoms));
            assert forall|j: int, x: int|
                0 <= j < s2.records.len() && s2.records[j].name == n && 0 <= x
                    < s2.records[j].tuples.len() && leaves(#[trigger] s2.records[j].tuples[x], c)
                implies s2.records[j].source == ty by {
                if j < rs.len() {
                    assert(s2.records[j] == rs[j]);
                    assert(leaves(s.records[j].tuples[x], c));
                }
            }
        },
    }
}

/// The `idx` tuples out of `c` name, in order, the elements `es` at
/// positions whose atoms are labelled `0`, `1`, `2`, ...
pub open spec fn written(s: RelState, c: Seq<char>, es: Seq<Seq<char>>) -> bool {
    let own = own_atoms(s.records, c, "idx"@);
    &&& own.len() == es.len()
    &&& forall|k: int|
        0 <= k < es.len() ==> {
            let t = #[trigger] own[k];
            &&& t.len() == 3
            &&& t[0] == c
            &&& t[2] == es[k]
            &&& has_atom(s, t[1])
            &&& label_or_id(s.atoms, t[1]) == decimal(k as nat)
        }
}

/// The `map_entry` tuples out of `c` are, in order, the entries `kvs`.
pub open spec fn entries_written(s: RelState, c: Seq<char>, kvs: Seq<(Seq<char>, Seq<char>)>) -> bool {
    let own = own_atoms(s.records, c, "map_entry"@);
    &&& own.len() == kvs.len()
    &&& forall|k: int| 0 <= k < kvs.len() ==> #[trigger] own[k] == seq![c, kvs[k].0, kvs[k].1]
}

/// A step that changes no record and only appends atoms keeps what was
/// written.
proof fn lemma_written_atoms_grow(s: RelState, t: RelState, c: Seq<char>, es: Seq<Seq<char>>)
    requires
        state_ok(s),
        state_ok(t),
        t.records == s.records,
        s.atoms.len() <= t.atoms.len(),
        forall|i: int| 0 <= i < s.atoms.len() ==> t.atoms[i] == s.atoms[i],
        written(s, c, es),
        has_atom(s, c),
    ensures
        written(t, c, es),
        has_atom(t, c),
{
    let own = own_atoms(s.records, c, "idx"@);
    assert forall|k: int| 0 <= k < es.len() implies {
        let x = #[trigger] own[k];
        &&& x.len() == 3
        &&& x[0] == c
        &&& x[2] == es[k]
        &&& has_atom(t, x[1])
        &&& label_or_id(t.atoms, x[1]) == decimal(k as nat)
    } by {
        lemma_label_stable(s, t, own[k][1]);
    }
    lemma_has_atom_grows(s, t, c);
}

/// Adding element `e` at the next position appends one `idx` tuple out of
/// `c`, naming `e` and a position atom labelled with the position; the
/// tuples of every other relation out of `c` stay as they were.
pub proof fn lemma_element_written(
    s: RelState,
    c: Seq<char>,
    ty: Seq<char>,
    es: Seq<Seq<char>>,
    e: Seq<char>,
    kvs: Seq<(Seq<char>, Seq<char>)>,
)
    requires
        state_ok(s),
        has_atom(s, c),
        has_typed_atom(s, c, ty),
        has_atom(s, e),
        written(s, c, es),
        filed_under(s, c, "idx"@, ty),
        entries_written(s, c, kvs),
        filed_under(s, c, "map_entry"@, "map"@),
    ensures
        state_ok(step_element(s, c, ty, es.len(), e)),
        written(step_element(s, c, ty, es.len(), e), c, es.push(e)),
        filed_under(step_element(s, c, ty, es.len(), e), c, "idx"@, ty),
        entries_written(step_element(s, c, ty, es.len(), e), c, kvs),
        filed_under(step_element(s, c, ty, es.len(), e), c, "map_entry"@, "map"@),
        has_atom(step_element(s, c, ty, es.len(), e), c),
        has_typed_atom(step_element(s, c, ty, es.len(), e), c, ty),
{
    reveal_strlit("idx");
    reveal_strlit("map_entry");
    assert("idx"@ != "map_entry"@) by {
        assert("idx"@.len() == 3);
        assert("map_entry"@.len() == 9);
    }
    let n = "idx"@;
    let k = es.len();
    let (s1, p) = step_intern(s, "u64"@, decimal(k), None);
    let tp = index_tuple(c, ty, p, e);
    let s2 = step_add_tuple(s1, n, tp);
    lemma_intern_ok(s, "u64"@, decimal(k), None);
    lemma_find_interned(s.interned, "u64"@, decimal(k), None);
    assert(s1.atoms.len() >= s.atoms.len());
    assert(forall|i: int| 0 <= i < s.atoms.len() ==> s1.atoms[i] == s.atoms[i]);
    lemma_has_atom_grows(s, s1, c);
    lemma_has_atom_grows(s, s1, e);
    // the position atom carries its label
    lemma_find_interned(s1.interned, "u64"@, decimal(k), None);
    let ei: int = match find_interned(s.interned, "u64"@, decimal(k), None) {
        Some(i) => i,
        None => s.interned.len() as int,
    };
    assert(s1.interned[ei].id == p && s1.interned[ei].label == decimal(k));
    assert(interned_atom(s1, s1.interned[ei]));
    let pj = choose|j: int|
        0 <= j < s1.atoms.len() && s1.atoms[j] == (AtomView {
            id: s1.interned[ei].id,
            ty: s1.interned[ei].ty,
            label: s1.interned[ei].label,
        });
    lemma_find_unique(s1, pj);
    assert(label_or_id(s1.atoms, p) == decimal(k));
    assert(has_atom(s1, p));
    assert forall|x: int| 0 <= x < tp.atoms.len() implies has_atom(s1, #[trigger] tp.atoms[x]) by {
        if x == 0 {
            assert(tp.atoms[x] == c);
        } else if x == 1 {
            assert(tp.atoms[x] == p);
        } else {
            assert(tp.atoms[x] == e);
        }
    }
    assert(s1.records == s.records);
    lemma_own_append(s1, c, n, ty, tp);
    lemma_own_keep(s1, c, "map_entry"@, "map"@, n, tp);
    let own = own_atoms(s.records, c, n);
    let own2 = own_atoms(s2.records, c, n);
    assert forall|x: int| 0 <= x < es.push(e).len() implies {
        let t = #[trigger] own2[x];
        &&& t.len() == 3
        &&& t[0] == c
        &&& t[2] == es.push(e)[x]
        &&& has_atom(s2, t[1])
        &&& label_or_id(s2.atoms, t[1]) == decimal(x as nat)
    } by {
        if x < es.len() {
            assert(own2[x] == own[x]);
            lemma_label_stable(s, s1, own[x][1]);
        } else {
            assert(own2[x] == tp.atoms);
        }
    }
    let eo = own_atoms(s.records, c, "map_entry"@);
    assert forall|x: int| 0 <= x < kvs.len() implies #[trigger] own_atoms(s2.records, c, "map_entry"@)[x]
        == seq![c, kvs[x].0, kvs[x].1] by {
        assert(eo[x] == seq![c, kvs[x].0, kvs[x].1]);
    }
    lemma_has_atom_grows(s1, s2, c);
}

/// Adding the entry `key: value` to the map `c` appends one `map_entry`
/// tuple out of `c`; the tuples of every other relation out of `c` stay as
/// they were.
pub proof fn lemma_entry_written(
    s: RelState,
    c: Seq<char>,
    ty: Seq<char>,
    es: Seq<Seq<char>>,
    kvs: Seq<(Seq<char>, Seq<char>)>,
    key: Seq<char>,
    value: Seq<char>,
)
    requires
        state_ok(s),
        has_atom(s, c),
        has_typed_atom(s, c, "map"@),
        has_typed_atom(s, c, ty),
        has_atom(s, key),
        has_atom(s, value),
        written(s, c, es),
        filed_under(s, c, "idx"@, ty),
        entries_written(s, c, kvs),
        filed_under(s, c, "map_entry"@, "map"@),
    ensures
        state_ok(step_add_tuple(s, "map_entry"@, entry_tuple(c, key, value))),
        written(step_add_tuple(s, "map_entry"@, entry_tuple(c, key, value)), c, es),
        filed_under(step_add_tuple(s, "map_entry"@, entry_tuple(c, key, value)), c, "idx"@, ty),
        entries_written(step_add_tuple(s, "map_entry"@, entry_tuple(c, key, value)), c, kvs.push((key, value))),
        filed_under(step_add_tuple(s, "map_entry"@, entry_tuple(c, key, value)), c, "map_entry"@, "map"@),
        has_atom(step_add_tuple(s, "map_entry"@, entry_tuple(c, key, value)), c),
        has_typed_atom(step_add_tuple(s, "map_entry"@, entry_tuple(c, key, value)), c, ty),
{
    reveal_strlit("idx");
    reveal_strlit("map_entry");
    assert("idx"@ != "map_entry"@) by {
        assert("idx"@.len() == 3);
        assert("map_entry"@.len() == 9);
    }
    let n = "map_entry"@;
    let tu = entry_tuple(c, key, value);
    assert forall|x: int| 0 <= x < tu.atoms.len() implies has_atom(s, #[trigger] tu.atoms[x]) by {
        if x == 0 {
            assert(tu.atoms[x] == c);
        } else if x == 1 {
            assert(tu.atoms[x] == key);
        } else {
            assert(tu.atoms[x] == value);
        }
    }
    lemma_own_append(s, c, n, "map"@, tu);
    lemma_own_keep(s, c, "idx"@, ty, n, tu);
    let u = step_add_tuple(s, n, tu);
    let own = own_atoms(s.records, c, "idx"@);
    assert forall|k: int| 0 <= k < es.len() implies {
        let x = #[trigger] own_atoms(u.records, c, "idx"@)[k];
        &&& x.len() == 3
        &&& x[0] == c
        &&& x[2] == es[k]
        &&& has_atom(u, x[1])
        &&& label_or_id(u.atoms, x[1]) == decimal(k as nat)
    } by {
        assert(own[k] == own_atoms(u.records, c, "idx"@)[k]);
    }
    let eo = own_atoms(s.records, c, n);
    let eo2 = own_atoms(u.records, c, n);
    assert forall|x: int| 0 <= x < kvs.push((key, value)).len() implies #[trigger] eo2[x]
        == seq![c, kvs.push((key, value))[x].0, kvs.push((key, value))[x].1] by {
        if x < kvs.len() {
            assert(eo2[x] == eo[x]);
        } else {
            assert(eo2[x] == tu.atoms);
        }
    }
}

/// A tuple that is no `idx` or `map_entry` tuple out of `c` keeps what was
/// written to `c`.
proof fn lemma_tuple_written(
    s: RelState,
    c: Seq<char>,
    ty: Seq<char>,
    es: Seq<Seq<char>>,
    kvs: Seq<(Seq<char>, Seq<char>)>,
    name: Seq<char>,
    tu: TupleView,
)
    requires
        state_ok(s),
        has_atom(s, c),
        tuple_valid(s, tu),
        !((name == "idx"@ || name == "map_entry"@) && leaves(tu, c)),
        written(s, c, es),
        filed_under(s, c, "idx"@, ty),
        entries_written(s, c, kvs),
        filed_under(s, c, "map_entry"@, "map"@),
    ensures
        state_ok(step_add_tuple(s, name, tu)),
        written(step_add_tuple(s, name, tu), c, es),
        filed_under(step_add_tuple(s, name, tu), c, "idx"@, ty),
        entries_written(step_add_tuple(s, name, tu), c, kvs),
        filed_under(step_add_tuple(s, name, tu), c, "map_entry"@, "map"@),
        has_atom(step_add_tuple(s, name, tu), c),
{
    lemma_own_keep(s, c, "idx"@, ty, name, tu);
    lemma_own_keep(s, c, "map_entry"@, "map"@, name, tu);
    let u = step_add_tuple(s, name, tu);
    let own = own_atoms(s.records, c, "idx"@);
    assert forall|k: int| 0 <= k < es.len() implies {
        let x = #[trigger] own_atoms(u.records, c, "idx"@)[k];
        &&& x.len() == 3
        &&& x[0] == c
        &&& x[2] == es[k]
        &&& has_atom(u, x[1])
        &&& label_or_id(u.atoms, x[1]) == decimal(k as nat)
    } by {
        assert(own[k] == own_atoms(u.records, c, "idx"@)[k]);
    }
    let eo = own_atoms(s.records, c, "map_entry"@);
    assert forall|x: int| 0 <= x < kvs.len() implies #[trigger] own_atoms(u.records, c, "map_entry"@)[x]
        == seq![c, kvs[x].0, kvs[x].1] by {
        assert(eo[x] == seq![c, kvs[x].0, kvs[x].1]);
    }
}


// ---------------------------------------------------------------------------
// Walks
// ---------------------------------------------------------------------------

/// One step of a walk.
pub enum WalkStep {
    /// A new atom.
    Atom { ty: Seq<char>, label: Seq<char> },
    /// A shared atom, interned by type, label and bits.
    Shared { ty: Seq<char>, label: Seq<char>, bits: Option<u64> },
    /// A tuple of relation `name`.
    Tuple { name: Seq<char>, t: TupleView },
    /// The decorators of a struct type gathered, given what the registry
    /// held for it.
    Collect { name: Seq<char>, registered: Option<DecoratorsView> },
    /// Element `e` added to the container at its next position.
    Element { e: Seq<char> },
    /// The entry `key: value` added to the container as a map.
    Entry { key: Seq<char>, value: Seq<char> },
}

/// The state after `steps`, and the elements added to the container `c`
/// (of type `ty`), in order.
pub open spec fn walk(s: RelState, c: Seq<char>, ty: Seq<char>, steps: Seq<WalkStep>) -> (
    RelState,
    Seq<Seq<char>>,
)
    decreases steps.len(),
{
    if steps.len() == 0 {
        (s, Seq::empty())
    } else {
        let (t, es) = walk(s, c, ty, steps.drop_last());
        match steps.last() {
            WalkStep::Atom { ty: aty, label } => (step_emit(t, aty, label).0, es),
            WalkStep::Shared { ty: aty, label, bits } => (step_intern(t, aty, label, bits).0, es),
            WalkStep::Tuple { name, t: tu } => (step_add_tuple(t, name, tu), es),
            WalkStep::Collect { name, registered } => (step_collect(t, name, registered), es),
            WalkStep::Element { e } => (step_element(t, c, ty, es.len(), e), es.push(e)),
            WalkStep::Entry { key, value } => (
                step_add_tuple(t, "map_entry"@, entry_tuple(c, key, value)),
                es,
            ),
        }
    }
}

/// The entries of the walk's `Entry` steps, in order.
pub open spec fn walk_entries(steps: Seq<WalkStep>) -> Seq<(Seq<char>, Seq<char>)>
    decreases steps.len(),
{
    if steps.len() == 0 {
        Seq::empty()
    } else {
        let prev = walk_entries(steps.drop_last());
        match steps.last() {
            WalkStep::Entry { key, value } => prev.push((key, value)),
            _ => prev,
        }
    }
}

/// Whether a step may be taken in `s`: a tuple is valid and is no `idx` or
/// `map_entry` tuple out of the container `c`; an element, a key and a
/// value are existing atoms, and an entry is added to a `map` atom.
pub open spec fn step_allowed(s: RelState, c: Seq<char>, st: WalkStep) -> bool {
    match st {
        WalkStep::Tuple { name, t } => tuple_valid(s, t) && !((name == "idx"@ || name
            == "map_entry"@) && leaves(t, c)),
        WalkStep::Element { e } => has_atom(s, e),
        WalkStep::Entry { key, value } => has_atom(s, key) && has_atom(s, value) && has_typed_atom(
            s,
            c,
            "map"@,
        ),
        _ => true,
    }
}

/// Whether every step of the walk may be taken where it is taken.
pub open spec fn walk_allowed(s: RelState, c: Seq<char>, ty: Seq<char>, steps: Seq<WalkStep>) -> bool
    decreases steps.len(),
{
    if steps.len() == 0 {
        true
    } else {
        walk_allowed(s, c, ty, steps.drop_last()) && step_allowed(
            walk(s, c, ty, steps.drop_last()).0,
            c,
            steps.last(),
        )
    }
}

/// What is written to `c` while it is being walked.
pub open spec fn walk_inv(t: RelState, c: Seq<char>, ty: Seq<char>, es: Seq<Seq<char>>, kvs: Seq<(Seq<char>, Seq<char>)>) -> bool {
    &&& state_ok(t)
    &&& has_atom(t, c)
    &&& has_typed_atom(t, c, ty)
    &&& written(t, c, es)
    &&& filed_under(t, c, "idx"@, ty)
    &&& entries_written(t, c, kvs)
    &&& filed_under(t, c, "map_entry"@, "map"@)
}

proof fn lemma_walk_inv(s: RelState, c: Seq<char>, ty: Seq<char>, steps: Seq<WalkStep>)
    requires
        walk_inv(s, c, ty, Seq::empty(), Seq::empty()),
        walk_allowed(s, c, ty, steps),
    ensures
        walk_inv(walk(s, c, ty, steps).0, c, ty, walk(s, c, ty, steps).1, walk_entries(steps)),
    decreases steps.len(),
{
    if steps.len() > 0 {
        lemma_walk_inv(s, c, ty, steps.drop_last());
        let (t, es) = walk(s, c, ty, steps.drop_last());
        let kvs = walk_entries(steps.drop_last());
        match steps.last() {
            WalkStep::Atom { ty: aty, label } => {
                lemma_emit_ok(t, aty, label);
                lemma_written_atoms_grow(t, step_emit(t, aty, label).0, c, es);
            },
            WalkStep::Shared { ty: aty, label, bits } => {
                lemma_intern_ok(t, aty, label, bits);
                lemma_find_interned(t.interned, aty, label, bits);
                let t2 = step_intern(t, aty, label, bits).0;
                assert(t2.atoms.len() >= t.atoms.len());
                assert(forall|i: int| 0 <= i < t.atoms.len() ==> t2.atoms[i] == t.atoms[i]);
                lemma_written_atoms_grow(t, t2, c, es);
            },
            WalkStep::Tuple { name, t: tu } => {
                lemma_tuple_written(t, c, ty, es, kvs, name, tu);
            },
            WalkStep::Collect { name, registered } => {
                lemma_collect_ok(t, name, registered);
                lemma_written_atoms_grow(t, step_collect(t, name, registered), c, es);
            },
            WalkStep::Element { e } => {
                lemma_element_written(t, c, ty, es, e, kvs);
            },
            WalkStep::Entry { key, value } => {
                lemma_entry_written(t, c, ty, es, kvs, key, value);
            },
        }
    }
}

/// Each tuple of relation `n` out of `c` in a record of `n` is among the
/// tuples of `n` out of `c`; when those all have three atoms, so do the
/// tuples, and each is of its record's largest arity.
proof fn lemma_own_arity(s: RelState, c: Seq<char>, n: Seq<char>)
    requires
        state_ok(s),
        forall|k: int|
            0 <= k < own_atoms(s.records, c, n).len() ==> (#[trigger] own_atoms(s.records, c, n)[k]).len()
                == 3,
    ensures
        forall|j: int, i: int|
            0 <= j < s.records.len() && s.records[j].name == n && 0 <= i < s.records[j].tuples.len()
                && leaves(#[trigger] s.records[j].tuples[i], c) ==> s.records[j].tuples[i].types.len()
                == max_arity(s.records[j].tuples),
{
    let own = own_atoms(s.records, c, n);
    lemma_own_atoms_contains(s.records, c, n);
    assert forall|j: int, i: int|
        0 <= j < s.records.len() && s.records[j].name == n && 0 <= i < s.records[j].tuples.len()
            && leaves(#[trigger] s.records[j].tuples[i], c) implies s.records[j].tuples[i].types.len()
        == max_arity(s.records[j].tuples) by {
        let ts = s.records[j].tuples;
        lemma_src_atoms_from(ts, c);
        lemma_max_arity(ts);
        assert(src_atoms(ts, c).contains(ts[i].atoms));
        assert(own.contains(ts[i].atoms));
        let k = choose|k: int| 0 <= k < own.len() && own[k] == ts[i].atoms;
        assert(own[k].len() == 3);
        assert(tuple_ok(s, s.records[j].source, s.records[j].tuples[i]));
        let m = choose|m: int| 0 <= m < ts.len() && ts[m].types.len() == max_arity(ts);
        assert(tuple_ok(s, s.records[j].source, s.records[j].tuples[m]));
    }
}

proof fn lemma_entry_pairs_of(ts: Seq<Seq<Seq<char>>>, c: Seq<char>, kvs: Seq<(Seq<char>, Seq<char>)>)
    requires
        ts.len() == kvs.len(),
        forall|k: int| 0 <= k < kvs.len() ==> #[trigger] ts[k] == seq![c, kvs[k].0, kvs[k].1],
    ensures
        entry_pairs(ts) == kvs,
    decreases ts.len(),
{
    if ts.len() > 0 {
        let d = ts.drop_last();
        assert forall|k: int| 0 <= k < kvs.drop_last().len() implies #[trigger] d[k] == seq![
            c,
            kvs.drop_last()[k].0,
            kvs.drop_last()[k].1,
        ] by {
            assert(d[k] == ts[k]);
        }
        lemma_entry_pairs_of(d, c, kvs.drop_last());
        let l = ts.len() - 1;
        assert(ts[l] == seq![c, kvs[l].0, kvs[l].1]);
        assert(kvs.drop_last().push(kvs[l]) =~= kvs);
    } else {
        assert(kvs =~= Seq::<(Seq<char>, Seq<char>)>::empty());
    }
}

/// Reading a finished instance gives, as the entries of the map `c`, the
/// key and value of each `map_entry` tuple out of `c`, record by record and
/// in the order made.
pub proof fn lemma_read_back_entries(s: RelState, c: Seq<char>, kvs: Seq<(Seq<char>, Seq<char>)>)
    requires
        state_ok(s),
        entries_written(s, c, kvs),
    ensures
        entry_pairs(outgoing(index_of(finished(s)).edges, c, "map_entry"@)) == kvs,
{
    let n = "map_entry"@;
    let own = own_atoms(s.records, c, n);
    assert forall|k: int| 0 <= k < own.len() implies (#[trigger] own[k]).len() == 3 by {
        assert(own[k] == seq![c, kvs[k].0, kvs[k].1]);
    }
    lemma_own_arity(s, c, n);
    lemma_rels_own_finished(s.records, c, n);
    lemma_outgoing_edges_of(finished(s).relations, c, n);
    lemma_entry_pairs_of(own, c, kvs);
}

/// What a walk wrote to the container `c` before it started is nothing.
proof fn lemma_walk_start(s: RelState, c: Seq<char>, ty: Seq<char>)
    requires
        state_ok(s),
        has_atom(s, c),
        has_typed_atom(s, c, ty),
        own_atoms(s.records, c, "idx"@).len() == 0,
        own_atoms(s.records, c, "map_entry"@).len() == 0,
    ensures
        walk_inv(s, c, ty, Seq::empty(), Seq::empty()),
{
    lemma_own_atoms_contains(s.records, c, "idx"@);
    lemma_own_atoms_contains(s.records, c, "map_entry"@);
    assert forall|j: int, i: int|
        0 <= j < s.records.len() && s.records[j].name == "idx"@ && 0 <= i < s.records[j].tuples.len()
            && leaves(#[trigger] s.records[j].tuples[i], c) implies s.records[j].source == ty by {
        lemma_src_atoms_from(s.records[j].tuples, c);
        assert(src_atoms(s.records[j].tuples, c).contains(s.records[j].tuples[i].atoms));
        assert(own_atoms(s.records, c, "idx"@).contains(s.records[j].tuples[i].atoms));
    }
    assert forall|j: int, i: int|
        0 <= j < s.records.len() && s.records[j].name == "map_entry"@ && 0 <= i
            < s.records[j].tuples.len() && leaves(#[trigger] s.records[j].tuples[i], c) implies s.records[j].source
        == "map"@ by {
        lemma_src_atoms_from(s.records[j].tuples, c);
        assert(src_atoms(s.records[j].tuples, c).contains(s.records[j].tuples[i].atoms));
        assert(own_atoms(s.records, c, "map_entry"@).contains(s.records[j].tuples[i].atoms));
    }
}

/// A container reads back what was added to it. For any walk that adds
/// no `idx` or `map_entry` tuple out of the container `c` except through
/// its own steps, the finished instance gives, for `c`, the elements added
/// as its sequence elements, in the order added, and the entries added as
/// its map entries, in the order added.
pub proof fn lemma_walk_reads_back(s: RelState, c: Seq<char>, ty: Seq<char>, steps: Seq<WalkStep>)
    requires
        state_ok(s),
        has_atom(s, c),
        has_typed_atom(s, c, ty),
        own_atoms(s.records, c, "idx"@).len() == 0,
        own_atoms(s.records, c, "map_entry"@).len() == 0,
        walk_allowed(s, c, ty, steps),
        walk(s, c, ty, steps).1.len() <= usize::MAX + 1,
    ensures
        state_ok(walk(s, c, ty, steps).0),
        seq_elems_of(index_of(finished(walk(s, c, ty, steps).0)), c) == walk(s, c, ty, steps).1,
        entry_pairs(outgoing(index_of(finished(walk(s, c, ty, steps).0)).edges, c, "map_entry"@))
            == walk_entries(steps),
{
    lemma_walk_start(s, c, ty);
    lemma_walk_inv(s, c, ty, steps);
    let (t, es) = walk(s, c, ty, steps);
    lemma_read_back_elements(t, c, es);
    lemma_read_back_entries(t, c, walk_entries(steps));
}

// ---------------------------------------------------------------------------
// The root of a finished walk
// ---------------------------------------------------------------------------

/// No tuple of `s` points at `c` past its source position.
pub open spec fn untargeted(s: RelState, c: Seq<char>) -> bool {
    forall|j: int, i: int, k: int|
        0 <= j < s.records.len() && 0 <= i < s.records[j].tuples.len() && 1 <= k
            < s.records[j].tuples[i].atoms.len() ==> #[trigger] s.records[j].tuples[i].atoms[k] != c
}

/// A step that does not point at `c`: no tuple it adds has `c` past its
/// source position.
pub open spec fn step_spares(st: WalkStep, c: Seq<char>) -> bool {
    match st {
        WalkStep::Tuple { name, t } => forall|k: int| 1 <= k < t.atoms.len() ==> #[trigger] t.atoms[k] != c,
        WalkStep::Element { e } => e != c,
        WalkStep::Entry { key, value } => key != c && value != c,
        _ => true,
    }
}

/// Whether no step of the walk points at `c`.
pub open spec fn walk_spares(steps: Seq<WalkStep>, c: Seq<char>) -> bool {
    forall|i: int| 0 <= i < steps.len() ==> step_spares(#[trigger] steps[i], c)
}

/// What a walk keeps of its first atom `c`, of type `ty`.
pub open spec fn root_inv(t: RelState, c: Seq<char>, ty: Seq<char>) -> bool {
    &&& state_ok(t)
    &&& t.atoms.len() >= 1
    &&& t.atoms[0].id == c
    &&& has_typed_atom(t, c, ty)
    &&& untargeted(t, c)
    &&& forall|e: int| 0 <= e < t.interned.len() ==> #[trigger] t.interned[e].id != c
}

proof fn lemma_add_spares(s: RelState, c: Seq<char>, name: Seq<char>, tu: TupleView)
    requires
        untargeted(s, c),
        forall|k: int| 1 <= k < tu.atoms.len() ==> #[trigger] tu.atoms[k] != c,
    ensures
        untargeted(step_add_tuple(s, name, tu), c),
{
    let u = step_add_tuple(s, name, tu);
    let rs = s.records;
    lemma_find_record(rs, tu.types[0], name);
    assert forall|j: int, i: int, k: int|
        0 <= j < u.records.len() && 0 <= i < u.records[j].tuples.len() && 1 <= k
            < u.records[j].tuples[i].atoms.len() implies #[trigger] u.records[j].tuples[i].atoms[k] != c by {
        match find_record(rs, tu.types[0], name) {
            Some(x) => {
                if j == x && i == rs[x].tuples.len() {
                    assert(u.records[j].tuples[i] == tu);
                } else {
                    assert(u.records[j].tuples[i] == rs[j].tuples[i]);
                }
            },
            None => {
                if j == rs.len() {
                    assert(u.records[j].tuples[i] == tu);
                } else {
                    assert(u.records[j] == rs[j]);
                }
            },
        }
    }
}

proof fn lemma_intern_spares(
    t: RelState,
    c: Seq<char>,
    cty: Seq<char>,
    ty: Seq<char>,
    label: Seq<char>,
    bits: Option<u64>,
)
    requires
        root_inv(t, c, cty),
    ensures
        root_inv(step_intern(t, ty, label, bits).0, c, cty),
        step_intern(t, ty, label, bits).1 != c,
{
    lemma_intern_ok(t, ty, label, bits);
    lemma_find_interned(t.interned, ty, label, bits);
    let u = step_intern(t, ty, label, bits).0;
    assert(t.atoms[0].id == atom_id(0));
    match find_interned(t.interned, ty, label, bits) {
        Some(i) => {},
        None => {
            let n = t.interned.len() as int;
            assert(u.interned[n].id == atom_id(t.atoms.len()));
            if atom_id(t.atoms.len()) == c {
                lemma_atom_id_injective(t.atoms.len(), 0);
            }
            assert(u.atoms[0] == t.atoms[0]);
            assert forall|e: int| 0 <= e < u.interned.len() implies #[trigger] u.interned[e].id != c by {
                if e < n {
                    assert(u.interned[e] == t.interned[e]);
                }
            }
        },
    }
}

proof fn lemma_walk_root_inv(s: RelState, c: Seq<char>, ty: Seq<char>, steps: Seq<WalkStep>)
    requires
        root_inv(s, c, ty),
        walk_allowed(s, c, ty, steps),
        walk_spares(steps, c),
    ensures
        root_inv(walk(s, c, ty, steps).0, c, ty),
    decreases steps.len(),
{
    if steps.len() > 0 {
        let init = steps.drop_last();
        assert forall|i: int| 0 <= i < init.len() implies step_spares(#[trigger] init[i], c) by {
            assert(init[i] == steps[i]);
        }
        lemma_walk_root_inv(s, c, ty, init);
        let (t, es) = walk(s, c, ty, init);
        assert(step_spares(steps[steps.len() - 1], c));
        match steps.last() {
            WalkStep::Atom { ty: aty, label } => {
                lemma_emit_ok(t, aty, label);
                let u = step_emit(t, aty, label).0;
                assert(u.atoms[0] == t.atoms[0]);
            },
            WalkStep::Shared { ty: aty, label, bits } => {
                lemma_intern_spares(t, c, ty, aty, label, bits);
            },
            WalkStep::Tuple { name, t: tu } => {
                lemma_add_tuple_ok(t, name, tu);
                lemma_add_spares(t, c, name, tu);
            },
            WalkStep::Collect { name, registered } => {
                lemma_collect_ok(t, name, registered);
            },
            WalkStep::Element { e } => {
                lemma_intern_spares(t, c, ty, "u64"@, decimal(es.len()), None);
                let (t1, p) = step_intern(t, "u64"@, decimal(es.len()), None);
                let tp = index_tuple(c, ty, p, e);
                lemma_intern_ok(t, "u64"@, decimal(es.len()), None);
                lemma_find_interned(t.interned, "u64"@, decimal(es.len()), None);
                assert(t1.atoms.len() >= t.atoms.len());
                assert(forall|i: int| 0 <= i < t.atoms.len() ==> t1.atoms[i] == t.atoms[i]);
                lemma_has_atom_grows(t, t1, e);
                assert(has_typed_atom(t1, c, ty));
                lemma_find_interned(t1.interned, "u64"@, decimal(es.len()), None);
                assert(has_atom(t1, p));
                assert forall|k: int| 0 <= k < tp.atoms.len() implies has_atom(t1, #[trigger] tp.atoms[k]) by {
                    if k == 0 {
                        let w = choose|w: int| 0 <= w < t1.atoms.len() && t1.atoms[w].id == c && t1.atoms[w].ty == ty;
                    }
                }
                lemma_add_tuple_ok(t1, "idx"@, tp);
                assert forall|k: int| 1 <= k < tp.atoms.len() implies #[trigger] tp.atoms[k] != c by {}
                lemma_add_spares(t1, c, "idx"@, tp);
            },
            WalkStep::Entry { key, value } => {
                let tu = entry_tuple(c, key, value);
                assert forall|k: int| 0 <= k < tu.atoms.len() implies has_atom(t, #[trigger] tu.atoms[k]) by {
                    if k == 0 {
                        let w = choose|w: int| 0 <= w < t.atoms.len() && t.atoms[w].id == c && t.atoms[w].ty == "map"@;
                    }
                }
                lemma_add_tuple_ok(t, "map_entry"@, tu);
                assert forall|k: int| 1 <= k < tu.atoms.len() implies #[trigger] tu.atoms[k] != c by {}
                lemma_add_spares(t, c, "map_entry"@, tu);
            },
        }
    }
}

proof fn lemma_tuple_edges_from(n: Seq<char>, ts: Seq<TupleView>)
    ensures
        forall|e: int|
            0 <= e < tuple_edges(n, ts).len() ==> exists|i: int|
                0 <= i < ts.len() && #[trigger] tuple_edges(n, ts)[e].atoms == ts[i].atoms,
    decreases ts.len(),
{
    if ts.len() > 0 {
        lemma_tuple_edges_from(n, ts.drop_last());
        let prev = tuple_edges(n, ts.drop_last());
        let cur = tuple_edges(n, ts);
        assert forall|e: int| 0 <= e < cur.len() implies exists|i: int|
            0 <= i < ts.len() && #[trigger] cur[e].atoms == ts[i].atoms by {
            if e < prev.len() {
                assert(cur[e] == prev[e]);
                let i = choose|i: int| 0 <= i < ts.drop_last().len() && prev[e].atoms == ts.drop_last()[i].atoms;
                assert(ts[i] == ts.drop_last()[i]);
            } else {
                assert(cur[e].atoms == ts[ts.len() - 1].atoms);
            }
        }
    }
}

proof fn lemma_edges_from(rels: Seq<RelationView>)
    ensures
        forall|e: int|
            0 <= e < edges_of(rels).len() ==> exists|r: int, i: int|
                0 <= r < rels.len() && 0 <= i < rels[r].tuples.len() && #[trigger] edges_of(rels)[e].atoms
                    == rels[r].tuples[i].atoms,
    decreases rels.len(),
{
    if rels.len() > 0 {
        let init = rels.drop_last();
        lemma_edges_from(init);
        let last = rels.last();
        lemma_tuple_edges_from(last.name, last.tuples);
        let a = edges_of(init);
        let b = tuple_edges(last.name, last.tuples);
        assert(edges_of(rels) == a + b);
        assert forall|e: int| 0 <= e < edges_of(rels).len() implies exists|r: int, i: int|
            0 <= r < rels.len() && 0 <= i < rels[r].tuples.len() && #[trigger] edges_of(rels)[e].atoms
                == rels[r].tuples[i].atoms by {
            if e < a.len() {
                assert(edges_of(rels)[e] == a[e]);
                let (r, i) = choose|r: int, i: int|
                    0 <= r < init.len() && 0 <= i < init[r].tuples.len() && a[e].atoms == init[r].tuples[i].atoms;
                assert(rels[r] == init[r]);
            } else {
                assert(edges_of(rels)[e] == b[e - a.len()]);
                let i = choose|i: int| 0 <= i < last.tuples.len() && b[e - a.len()].atoms == last.tuples[i].atoms;
                assert(rels[rels.len() - 1] == last);
            }
        }
    }
}

/// The top value's atom is the root of a finished walk. A walk that starts
/// on a fresh state by making the atom `c` of the top value (a struct, an
/// enum variant, a container or a newtype struct; not a scalar, nor a
/// `Some` wrapper, which is made after what it wraps), and that never
/// points at `c` from a
/// later tuple (a tree: parts are made under their parent), finishes into an
/// instance whose first atom is `c` and whose tuples never point at `c` past
/// their source; so `find_root` gives `c`.
pub proof fn lemma_root_is_top_value(
    exclude: Option<Seq<char>>,
    ty: Seq<char>,
    label: Seq<char>,
    steps: Seq<WalkStep>,
)
    requires
        walk_allowed(
            step_emit(start_state(exclude), ty, label).0,
            step_emit(start_state(exclude), ty, label).1,
            ty,
            steps,
        ),
        walk_spares(steps, step_emit(start_state(exclude), ty, label).1),
    ensures
        ({
            let (s1, c) = step_emit(start_state(exclude), ty, label);
            let t = walk(s1, c, ty, steps).0;
            &&& finished(t).atoms.len() >= 1
            &&& finished(t).atoms[0].id == c
            &&& !targeted(edges_of(finished(t).relations), c)
        }),
{
    let s0 = start_state(exclude);
    let (s1, c) = step_emit(s0, ty, label);
    assert(state_ok(s0));
    lemma_emit_ok(s0, ty, label);
    assert(s1.atoms[0] == (AtomView { id: c, ty, label }));
    lemma_walk_root_inv(s1, c, ty, steps);
    let t = walk(s1, c, ty, steps).0;
    let rels = finished(t).relations;
    lemma_edges_from(rels);
    if targeted(edges_of(rels), c) {
        let (e, k) = choose|e: int, k: int|
            0 <= e < edges_of(rels).len() && 1 <= k < edges_of(rels)[e].atoms.len()
                && #[trigger] edges_of(rels)[e].atoms[k] == c;
        let (r, i) = choose|r: int, i: int|
            0 <= r < rels.len() && 0 <= i < rels[r].tuples.len() && edges_of(rels)[e].atoms
                == rels[r].tuples[i].atoms;
        let ts = t.records[r].tuples;
        assert(rels[r] == finished_record(t.records[r]));
        lemma_filter_from(ts, is_longest(ts));
        lemma_filter_from(ts, is_shorter(ts));
        let l = ts.filter(is_longest(ts));
        let sh = ts.filter(is_shorter(ts));
        let tu = rels[r].tuples[i];
        assert(tu == (l + sh)[i]);
        if i < l.len() {
            assert(tu == l[i]);
            let x = choose|x: int| 0 <= x < ts.len() && ts[x] == l[i];
            assert(ts[x].atoms[k] == c);
        } else {
            assert(tu == sh[i - l.len()]);
            let x = choose|x: int| 0 <= x < ts.len() && ts[x] == sh[i - l.len()];
            assert(ts[x].atoms[k] == c);
        }
    }
}

proof fn lemma_same_arity_keeps(ts: Seq<TupleView>, src: Seq<char>, k: nat)
    requires
        forall|i: int| 0 <= i < ts.len() && leaves(ts[i], src) ==> #[trigger] ts[i].types.len() == k,
    ensures
        src_atoms(longest_first(ts), src) == src_atoms(ts, src),
{
    let l = ts.filter(is_longest(ts));
    let sh = ts.filter(is_shorter(ts));
    lemma_src_atoms_concat(l, sh, src);
    lemma_src_atoms_filter(ts, src, is_longest(ts));
    lemma_src_atoms_filter(ts, src, is_shorter(ts));
    if k == max_arity(ts) {
        assert forall|i: int| 0 <= i < ts.len() && leaves(ts[i], src) implies is_longest(ts)(ts[i]) by {}
        assert forall|i: int| 0 <= i < ts.len() && leaves(ts[i], src) implies !is_shorter(ts)(ts[i]) by {}
        assert(src_atoms(ts, src) + Seq::<Seq<Seq<char>>>::empty() =~= src_atoms(ts, src));
    } else {
        assert forall|i: int| 0 <= i < ts.len() && leaves(ts[i], src) implies !is_longest(ts)(ts[i]) by {}
        assert forall|i: int| 0 <= i < ts.len() && leaves(ts[i], src) implies is_shorter(ts)(ts[i]) by {}
        assert(Seq::<Seq<Seq<char>>>::empty() + src_atoms(ts, src) =~= src_atoms(ts, src));
    }
}

proof fn lemma_rels_own_same_arity(rs: Seq<RecordView>, src: Seq<char>, name: Seq<char>, k: nat)
    requires
        forall|j: int, i: int|
            0 <= j < rs.len() && rs[j].name == name && 0 <= i < rs[j].tuples.len() && leaves(
                #[trigger] rs[j].tuples[i],
                src,
            ) ==> rs[j].tuples[i].types.len() == k,
    ensures
        rels_own(rs.map_values(|r: RecordView| finished_record(r)), src, name) == own_atoms(
            rs,
            src,
            name,
        ),
    decreases rs.len(),
{
    if rs.len() > 0 {
        let f = rs.map_values(|r: RecordView| finished_record(r));
        let d = rs.drop_last();
        assert(f.drop_last() =~= d.map_values(|r: RecordView| finished_record(r)));
        assert forall|j: int, i: int|
            0 <= j < d.len() && d[j].name == name && 0 <= i < d[j].tuples.len() && leaves(
                #[trigger] d[j].tuples[i],
                src,
            ) implies d[j].tuples[i].types.len() == k by {
            assert(d[j] == rs[j]);
        }
        lemma_rels_own_same_arity(d, src, name, k);
        let last = rs.last();
        assert(f.last() == finished_record(last));
        if last.name == name {
            assert forall|i: int| 0 <= i < last.tuples.len() && leaves(last.tuples[i], src) implies #[trigger] last.tuples[i].types.len()
                == k by {
                assert(rs[rs.len() - 1] == last);
                assert(leaves(rs[rs.len() - 1].tuples[i], src));
            }
            lemma_same_arity_keeps(last.tuples, src, k);
        }
    }
}

/// A relation written once out of an atom reads back its target. When the
/// only tuple of relation `n` out of `c` is `n(c, x)` (the `value` of a
/// newtype struct or a `Some` wrapper, the `variant_value` of a newtype
/// variant, a field of a struct), and every tuple of `n` out of `c` has two
/// positions, reading the finished instance gives `x` as the target of `n`
/// out of `c`, which is what the reader follows for a wrapper and what it
/// pairs with the field name `n`.
pub proof fn lemma_read_back_single(s: RelState, c: Seq<char>, n: Seq<char>, x: Seq<char>)
    requires
        state_ok(s),
        own_atoms(s.records, c, n) == seq![seq![c, x]],
        forall|j: int, i: int|
            0 <= j < s.records.len() && s.records[j].name == n && 0 <= i < s.records[j].tuples.len()
                && leaves(#[trigger] s.records[j].tuples[i], c) ==> s.records[j].tuples[i].types.len() == 2,
    ensures
        target_of(index_of(finished(s)), c, n) == Some(x),
        outgoing(index_of(finished(s)).edges, c, n) == seq![seq![c, x]],
{
    lemma_rels_own_same_arity(s.records, c, n, 2);
    lemma_outgoing_edges_of(finished(s).relations, c, n);
    assert(outgoing(index_of(finished(s)).edges, c, n) == seq![seq![c, x]]);
    assert(seq![c, x][1] == x);
}

/// Writing `n(c, x)` (the `value` of a newtype struct or a `Some` wrapper,
/// the `variant_value` of a newtype variant, a struct field) where `c` has
/// no tuple of `n` yet leaves that tuple as the only one of `n` out of `c`,
/// and the finished instance reads back `x` as the target of `n` out of `c`.
pub proof fn lemma_single_reads_back(s: RelState, c: Seq<char>, ty: Seq<char>, n: Seq<char>, x: Seq<char>)
    requires
        state_ok(s),
        has_typed_atom(s, c, ty),
        has_atom(s, x),
        own_atoms(s.records, c, n).len() == 0,
    ensures
        state_ok(step_add_tuple(s, n, field_tuple(c, ty, x))),
        own_atoms(step_add_tuple(s, n, field_tuple(c, ty, x)).records, c, n) == seq![seq![c, x]],
        target_of(index_of(finished(step_add_tuple(s, n, field_tuple(c, ty, x)))), c, n) == Some(x),
{
    let tu = field_tuple(c, ty, x);
    lemma_own_atoms_contains(s.records, c, n);
    assert forall|j: int, i: int|
        0 <= j < s.records.len() && s.records[j].name == n && 0 <= i < s.records[j].tuples.len()
            && leaves(#[trigger] s.records[j].tuples[i], c) implies s.records[j].source == ty by {
        lemma_src_atoms_from(s.records[j].tuples, c);
        assert(src_atoms(s.records[j].tuples, c).contains(s.records[j].tuples[i].atoms));
        assert(own_atoms(s.records, c, n).contains(s.records[j].tuples[i].atoms));
    }
    let w = choose|w: int| 0 <= w < s.atoms.len() && s.atoms[w].id == c && s.atoms[w].ty == ty;
    assert(has_atom(s, c));
    assert forall|k: int| 0 <= k < tu.atoms.len() implies has_atom(s, #[trigger] tu.atoms[k]) by {
        if k == 0 {
            assert(tu.atoms[k] == c);
        } else {
            assert(tu.atoms[k] == x);
        }
    }
    lemma_own_append(s, c, n, ty, tu);
    let u = step_add_tuple(s, n, tu);
    assert(own_atoms(s.records, c, n) =~= Seq::<Seq<Seq<char>>>::empty());
    assert(own_atoms(u.records, c, n) =~= seq![seq![c, x]]);
    lemma_own_atoms_contains(u.records, c, n);
    assert forall|j: int, i: int|
        0 <= j < u.records.len() && u.records[j].name == n && 0 <= i < u.records[j].tuples.len()
            && leaves(#[trigger] u.records[j].tuples[i], c) implies u.records[j].tuples[i].types.len() == 2 by {
        lemma_src_atoms_from(u.records[j].tuples, c);
        assert(src_atoms(u.records[j].tuples, c).contains(u.records[j].tuples[i].atoms));
        assert(own_atoms(u.records, c, n).contains(u.records[j].tuples[i].atoms));
        assert(tuple_ok(u, u.records[j].source, u.records[j].tuples[i]));
        assert(u.records[j].tuples[i].atoms == seq![c, x]);
    }
    lemma_read_back_single(u, c, n, x);
}

proof fn lemma_field_pairs_contains(edges: Seq<EdgeView>, src: Seq<char>, names: Seq<Seq<char>>, n: Seq<char>)
    requires
        names.contains(n),
        outgoing(edges, src, n).len() > 0,
        outgoing(edges, src, n)[0].len() >= 2,
    ensures
        field_pairs(edges, src, names).contains((n, outgoing(edges, src, n)[0][1])),
    decreases names.len(),
{
    let prev = field_pairs(edges, src, names.drop_last());
    if names.last() == n {
        assert(field_pairs(edges, src, names) == prev.push((n, outgoing(edges, src, n)[0][1])));
        assert(field_pairs(edges, src, names)[prev.len() as int] == (n, outgoing(edges, src, n)[0][1]));
    } else {
        let j = choose|j: int| 0 <= j < names.len() && names[j] == n;
        assert(names.drop_last()[j] == n);
        lemma_field_pairs_contains(edges, src, names.drop_last(), n);
        let k = choose|k: int| 0 <= k < prev.len() && prev[k] == (n, outgoing(edges, src, n)[0][1]);
        let cur = field_pairs(edges, src, names);
        let first = outgoing(edges, src, names.last())[0];
        if first.len() >= 2 {
            assert(cur == prev.push((names.last(), first[1])));
            assert(cur[k] == prev[k]);
        } else {
            assert(cur == prev);
        }
    }
}

/// A struct field written once reads back with its value: when the target
/// of relation `n` out of the struct atom `c` is `x` (as
/// `lemma_single_reads_back` gives for a field written once), the fields
/// the reader gives for `c` hold the pair `(n, x)`.
pub proof fn lemma_field_reads_back(ix: IndexView, c: Seq<char>, n: Seq<char>, x: Seq<char>)
    requires
        target_of(ix, c, n) == Some(x),
    ensures
        struct_fields_of(ix, c).contains((n, x)),
{
    lemma_source_names(ix.edges, c, n);
    lemma_field_pairs_contains(ix.edges, c, source_names(ix.edges, c), n);
}

/// The atom of type `ty` in a finished instance is the one the reader finds
/// for its id.
proof fn lemma_typed_atom_found(s: RelState, c: Seq<char>, ty: Seq<char>) -> (i: int)
    requires
        state_ok(s),
        has_typed_atom(s, c, ty),
    ensures
        find_atom(finished(s).atoms, c) == Some(i),
        0 <= i < s.atoms.len(),
        s.atoms[i].ty == ty,
        s.atoms[i].id == c,
{
    let w = choose|w: int| 0 <= w < s.atoms.len() && s.atoms[w].id == c && s.atoms[w].ty == ty;
    lemma_find_unique(s, w);
    w
}

/// What an atom reads as without a target type follows the type export
/// gave it: a `sequence`, `tuple` or `tuple_struct` atom (what `begin_seq`,
/// `begin_tuple`, `begin_tuple_struct` make) reads as a sequence, a `map`
/// atom as a map, each scalar type as that scalar, `unit` and
/// `unit_struct` as unit, `None` as absent, and a `Some` or
/// `newtype_struct` atom whose `value` is `x` as a wrapper of `x`.
pub proof fn lemma_any_shape_follows_type(s: RelState, c: Seq<char>, ty: Seq<char>)
    requires
        state_ok(s),
        has_typed_atom(s, c, ty),
    ensures
        ty == "sequence"@ || ty == "tuple"@ || ty == "tuple_struct"@ ==> any_shape_of(
            index_of(finished(s)),
            c,
        ) == Ok::<AnyShapeView, Seq<char>>(AnyShapeView::Sequence),
        ty == "map"@ ==> any_shape_of(index_of(finished(s)), c) == Ok::<AnyShapeView, Seq<char>>(
            AnyShapeView::Mapping,
        ),
        ty == "bool"@ ==> any_shape_of(index_of(finished(s)), c) == Ok::<AnyShapeView, Seq<char>>(
            AnyShapeView::Bool,
        ),
        ty == "i8"@ || ty == "i16"@ || ty == "i32"@ || ty == "i64"@ ==> any_shape_of(
            index_of(finished(s)),
            c,
        ) == Ok::<AnyShapeView, Seq<char>>(AnyShapeView::SmallSigned),
        ty == "i128"@ ==> any_shape_of(index_of(finished(s)), c) == Ok::<AnyShapeView, Seq<char>>(
            AnyShapeView::Signed128,
        ),
        ty == "u8"@ || ty == "u16"@ || ty == "u32"@ || ty == "u64"@ ==> any_shape_of(
            index_of(finished(s)),
            c,
        ) == Ok::<AnyShapeView, Seq<char>>(AnyShapeView::SmallUnsigned),
        ty == "u128"@ ==> any_shape_of(index_of(finished(s)), c) == Ok::<AnyShapeView, Seq<char>>(
            AnyShapeView::Unsigned128,
        ),
        ty == "f32"@ || ty == "f64"@ ==> any_shape_of(index_of(finished(s)), c) == Ok::<
            AnyShapeView,
            Seq<char>,
        >(AnyShapeView::Float),
        ty == "char"@ ==> any_shape_of(index_of(finished(s)), c) == Ok::<AnyShapeView, Seq<char>>(
            AnyShapeView::Char,
        ),
        ty == "string"@ ==> any_shape_of(index_of(finished(s)), c) == Ok::<AnyShapeView, Seq<char>>(
            AnyShapeView::Str,
        ),
        ty == "bytes"@ ==> any_shape_of(index_of(finished(s)), c) == Ok::<AnyShapeView, Seq<char>>(
            AnyShapeView::Bytes,
        ),
        ty == "unit"@ || ty == "unit_struct"@ ==> any_shape_of(index_of(finished(s)), c) == Ok::<
            AnyShapeView,
            Seq<char>,
        >(AnyShapeView::Unit),
        ty == "None"@ ==> any_shape_of(index_of(finished(s)), c) == Ok::<AnyShapeView, Seq<char>>(
            AnyShapeView::Absent,
        ),
        forall|x: Seq<char>|
            ty == "Some"@ && #[trigger] target_of(index_of(finished(s)), c, "value"@) == Some(x)
                ==> any_shape_of(index_of(finished(s)), c) == Ok::<AnyShapeView, Seq<char>>(
                AnyShapeView::Wrapped { inner: x },
            ),
        forall|x: Seq<char>|
            ty == "newtype_struct"@ && #[trigger] target_of(index_of(finished(s)), c, "value"@) == Some(x)
                ==> any_shape_of(index_of(finished(s)), c) == Ok::<AnyShapeView, Seq<char>>(
                AnyShapeView::Newtype { inner: x },
            ),
{
    reveal_strlit("bool");
    reveal_strlit("i8");
    reveal_strlit("i16");
    reveal_strlit("i32");
    reveal_strlit("i64");
    reveal_strlit("i128");
    reveal_strlit("u8");
    reveal_strlit("u16");
    reveal_strlit("u32");
    reveal_strlit("u64");
    reveal_strlit("u128");
    reveal_strlit("f32");
    reveal_strlit("f64");
    reveal_strlit("char");
    reveal_strlit("string");
    reveal_strlit("bytes");
    reveal_strlit("unit");
    reveal_strlit("unit_struct");
    reveal_strlit("None");
    reveal_strlit("Some");
    reveal_strlit("newtype_struct");
    reveal_strlit("sequence");
    reveal_strlit("tuple");
    reveal_strlit("tuple_struct");
    reveal_strlit("map");
    let i = lemma_typed_atom_found(s, c, ty);
    let ix = index_of(finished(s));
    assert(ix.atoms[i].ty == ty);
    assert(any_shape_of(ix, c) == match builtin_shape(ix, c, ty) {
        Some(r) => r,
        None => named_shape(ix, c, ix.atoms[i]),
    });
    if ty == "i8"@ || ty == "i16"@ || ty == "i32"@ || ty == "i64"@ {
        assert(ty != "bool"@);
        assert(builtin_shape(ix, c, ty) == Some(Ok::<AnyShapeView, Seq<char>>(AnyShapeView::SmallSigned)));
    }
    if ty == "i32"@ {
        assert("i32"@[1] != "i16"@[1]);
    }
    if ty == "i64"@ {
        assert("i64"@[1] != "i16"@[1]);
        assert("i64"@[1] != "i32"@[1]);
    }
    if ty == "i128"@ {
        assert("i128"@[0] != "bool"@[0]);
    }
    if ty == "u8"@ {
        assert("u8"@[0] != "i8"@[0]);
    }
    if ty == "u16"@ {
        assert("u16"@[0] != "i16"@[0]);
        assert("u16"@[0] != "i32"@[0]);
        assert("u16"@[0] != "i64"@[0]);
    }
    if ty == "u32"@ {
        assert("u32"@[0] != "i16"@[0]);
        assert("u32"@[0] != "i32"@[0]);
        assert("u32"@[0] != "i64"@[0]);
        assert("u32"@[1] != "u16"@[1]);
    }
    if ty == "u64"@ {
        assert("u64"@[0] != "i16"@[0]);
        assert("u64"@[0] != "i32"@[0]);
        assert("u64"@[0] != "i64"@[0]);
        assert("u64"@[1] != "u16"@[1]);
        assert("u64"@[1] != "u32"@[1]);
    }
    if ty == "u128"@ {
        assert("u128"@[0] != "bool"@[0]);
        assert("u128"@[0] != "i128"@[0]);
    }
    if ty == "f32"@ {
        assert("f32"@[0] != "i16"@[0]);
        assert("f32"@[0] != "i32"@[0]);
        assert("f32"@[0] != "i64"@[0]);
        assert("f32"@[0] != "u16"@[0]);
        assert("f32"@[0] != "u32"@[0]);
        assert("f32"@[0] != "u64"@[0]);
    }
    if ty == "f64"@ {
        assert("f64"@[0] != "i16"@[0]);
        assert("f64"@[0] != "i32"@[0]);
        assert("f64"@[0] != "i64"@[0]);
        assert("f64"@[0] != "u16"@[0]);
        assert("f64"@[0] != "u32"@[0]);
        assert("f64"@[0] != "u64"@[0]);
        assert("f64"@[1] != "f32"@[1]);
    }
    if ty == "char"@ {
        assert("char"@[0] != "bool"@[0]);
        assert("char"@[0] != "i128"@[0]);
        assert("char"@[0] != "u128"@[0]);
    }
    if ty == "unit"@ {
        assert("unit"@[0] != "bool"@[0]);
        assert("unit"@[0] != "i128"@[0]);
        assert("unit"@[1] != "u128"@[1]);
        assert("unit"@[0] != "char"@[0]);
    }
    if ty == "None"@ {
        assert("None"@[0] != "bool"@[0]);
        assert("None"@[0] != "i128"@[0]);
        assert("None"@[0] != "u128"@[0]);
        assert("None"@[0] != "char"@[0]);
        assert("None"@[0] != "unit"@[0]);
    }
    if ty == "Some"@ {
        assert("Some"@[0] != "bool"@[0]);
        assert("Some"@[0] != "i128"@[0]);
        assert("Some"@[0] != "u128"@[0]);
        assert("Some"@[0] != "char"@[0]);
        assert("Some"@[0] != "unit"@[0]);
        assert("Some"@[0] != "None"@[0]);
    }
    if ty == "tuple"@ {
        assert("tuple"@[0] != "bytes"@[0]);
    }
    if ty == "map"@ {
        assert("map"@[0] != "i16"@[0]);
        assert("map"@[0] != "i32"@[0]);
        assert("map"@[0] != "i64"@[0]);
        assert("map"@[0] != "u16"@[0]);
        assert("map"@[0] != "u32"@[0]);
        assert("map"@[0] != "u64"@[0]);
        assert("map"@[0] != "f32"@[0]);
        assert("map"@[0] != "f64"@[0]);
    }
}

/// Only a `None` atom reads as an absent option, and only a `Some` atom as
/// a wrapped one: any other atom is the value of a `Some` whose wrapper was
/// left out.
pub proof fn lemma_option_shape_kinds(ix: IndexView, id: Seq<char>)
    ensures
        option_shape_of(ix, id) == Ok::<OptionShapeView, Seq<char>>(OptionShapeView::Absent) ==> (
        find_atom(ix.atoms, id) matches Some(i) && ix.atoms[i].ty == "None"@),
        forall|x: Seq<char>|
            #[trigger] option_shape_of(ix, id) == Ok::<OptionShapeView, Seq<char>>(
                OptionShapeView::Wrapped { inner: x },
            ) ==> (find_atom(ix.atoms, id) matches Some(i) && ix.atoms[i].ty == "Some"@ && target_of(
                ix,
                id,
                "value"@,
            ) == Some(x)),
        (find_atom(ix.atoms, id) matches Some(i) && ix.atoms[i].ty != "None"@ && ix.atoms[i].ty
            != "Some"@) ==> option_shape_of(ix, id) == Ok::<OptionShapeView, Seq<char>>(
            OptionShapeView::Unwrapped,
        ),
{
}

/// A value of a `Some` that export wrote unwrapped reads back as present:
/// an atom of any type but `None` and `Some` (a `bool`, a number, a string,
/// a struct, ...) reads as `Unwrapped`, a `None` atom as absent.
pub proof fn lemma_option_shape_follows_type(s: RelState, c: Seq<char>, ty: Seq<char>)
    requires
        state_ok(s),
        has_typed_atom(s, c, ty),
    ensures
        ty == "None"@ ==> option_shape_of(index_of(finished(s)), c) == Ok::<
            OptionShapeView,
            Seq<char>,
        >(OptionShapeView::Absent),
        ty != "None"@ && ty != "Some"@ ==> option_shape_of(index_of(finished(s)), c) == Ok::<
            OptionShapeView,
            Seq<char>,
        >(OptionShapeView::Unwrapped),
{
    let i = lemma_typed_atom_found(s, c, ty);
    assert(index_of(finished(s)).atoms[i].ty == ty);
}

/// A struct or enum value reads by its name: an atom whose type is a
/// struct or enum name (none of the names export uses for its own atoms)
/// reads as a struct when its label is that name (what `begin_struct`
/// writes), and as the unit variant its label names when nothing leaves
/// it (what `serialize_unit_variant` writes).
pub proof fn lemma_named_shapes(s: RelState, c: Seq<char>, ty: Seq<char>, label: Seq<char>)
    requires
        state_ok(s),
        exists|w: int| 0 <= w < s.atoms.len() && s.atoms[w] == (AtomView { id: c, ty, label }),
        ty != "bool"@ && ty != "i8"@ && ty != "i16"@ && ty != "i32"@ && ty != "i64"@ && ty != "i128"@ && ty != "u8"@ && ty != "u16"@ && ty != "u32"@ && ty != "u64"@ && ty != "u128"@ && ty != "f32"@ && ty != "f64"@ && ty != "char"@ && ty != "string"@ && ty != "bytes"@ && ty != "unit"@ && ty != "unit_struct"@ && ty != "None"@ && ty != "Some"@ && ty != "newtype_struct"@ && ty != "sequence"@ && ty != "tuple"@ && ty != "tuple_struct"@ && ty != "map"@,
    ensures
        label == ty ==> any_shape_of(index_of(finished(s)), c) == Ok::<AnyShapeView, Seq<char>>(
            AnyShapeView::Struct,
        ),
        label != ty && source_names(index_of(finished(s)).edges, c).len() == 0 ==> any_shape_of(
            index_of(finished(s)),
            c,
        ) == Ok::<AnyShapeView, Seq<char>>(AnyShapeView::UnitVariant { variant: label }),
{
    let w = choose|w: int| 0 <= w < s.atoms.len() && s.atoms[w] == (AtomView { id: c, ty, label });
    lemma_find_unique(s, w);
    let ix = index_of(finished(s));
    assert(builtin_shape(ix, c, ty) is None);
}

} // verus!
