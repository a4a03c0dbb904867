//! Relation record ids: the source type and the relation name, each with
//! `.` and `\` escaped by a backslash, joined by a `.`.
//!
//! The escaping makes the id determine the pair it was built from, so two
//! records are told apart by id exactly when their source type or name
//! differ, whatever dots a serde rename puts in either.

use vstd::prelude::*;
use crate::text::{push_char, chars_of, string_of};

verus! {

/// Whether `c` is escaped in a record id.
pub open spec fn needs_escape(c: char) -> bool {
    c == '.' || c == '\\'
}

/// The spelling of one character in a record id.
pub open spec fn escape_char(c: char) -> Seq<char> {
    if needs_escape(c) {
        seq!['\\', c]
    } else {
        seq![c]
    }
}

/// `s` with every `.` and `\` preceded by a backslash.
pub open spec fn escape(s: Seq<char>) -> Seq<char>
    decreases s.len(),
{
    if s.len() == 0 {
        Seq::empty()
    } else {
        escape_char(s[0]) + escape(s.drop_first())
    }
}

/// The id of the record of relation `name` whose tuples start at atoms of
/// type `source`.
pub open spec fn relation_id(source: Seq<char>, name: Seq<char>) -> Seq<char> {
    escape(source) + seq!['.'] + escape(name)
}

/// Reads an escaped string up to its first unescaped `.`: the unescaped
/// text before it, and what follows it.
pub open spec fn read_escaped(x: Seq<char>) -> (Seq<char>, Seq<char>)
    decreases x.len(),
{
    if x.len() == 0 {
        (Seq::empty(), Seq::empty())
    } else if x[0] == '\\' && x.len() >= 2 {
        let (f, r) = read_escaped(x.skip(2));
        (seq![x[1]] + f, r)
    } else if x[0] == '.' {
        (Seq::empty(), x.skip(1))
    } else {
        let (f, r) = read_escaped(x.skip(1));
        (seq![x[0]] + f, r)
    }
}

proof fn lemma_escape_concat(a: Seq<char>, b: Seq<char>)
    ensures
        escape(a + b) == escape(a) + escape(b),
    decreases a.len(),
{
    if a.len() == 0 {
        assert(a + b =~= b);
        assert(escape(a) + escape(b) =~= escape(b));
    } else {
        lemma_escape_concat(a.drop_first(), b);
        assert((a + b).drop_first() =~= a.drop_first() + b);
        assert((a + b)[0] == a[0]);
        assert(escape(a + b) =~= escape_char(a[0]) + (escape(a.drop_first()) + escape(b)));
    }
}

proof fn lemma_read_escaped(a: Seq<char>, t: Seq<char>)
    ensures
        read_escaped(escape(a) + seq!['.'] + t) == (a, t),
    decreases a.len(),
{
    let x = escape(a) + seq!['.'] + t;
    if a.len() == 0 {
        assert(x =~= seq!['.'] + t);
        assert(x.skip(1) =~= t);
    } else {
        let c = a[0];
        let rest = a.drop_first();
        lemma_read_escaped(rest, t);
        let y = escape(rest) + seq!['.'] + t;
        assert(escape(a) == escape_char(c) + escape(rest));
        if needs_escape(c) {
            assert(x =~= seq!['\\', c] + y);
            assert(x.skip(2) =~= y);
            assert(x[0] == '\\');
            assert(x[1] == c);
        } else {
            assert(x =~= seq![c] + y);
            assert(x.skip(1) =~= y);
            assert(x[0] == c);
        }
        assert(seq![c] + rest =~= a);
    }
}

/// The record id determines the source type and the relation name it was
/// built from: two records have the same id only when they have the same
/// source type and the same name.
pub proof fn lemma_relation_id_injective(s1: Seq<char>, n1: Seq<char>, s2: Seq<char>, n2: Seq<char>)
    requires
        relation_id(s1, n1) == relation_id(s2, n2),
    ensures
        s1 == s2,
        n1 == n2,
{
    lemma_read_escaped(s1, escape(n1));
    lemma_read_escaped(s2, escape(n2));
    lemma_escape_injective(n1, n2);
}

proof fn lemma_escape_injective(a: Seq<char>, b: Seq<char>)
    requires
        escape(a) == escape(b),
    ensures
        a == b,
{
    lemma_read_escaped(a, Seq::empty());
    lemma_read_escaped(b, Seq::empty());
}

fn push_escaped(out: &mut String, s: &str)
    ensures
        final(out)@ == old(out)@ + escape(s@),
{
    let cs = chars_of(s);
    let ghost start = out@;
    let mut i: usize = 0;
    while i < cs.len()
        invariant
            i <= cs@.len(),
            cs@ == s@,
            out@ == start + escape(cs@.take(i as int)),
        decreases cs.len() - i,
    {
        let c = cs[i];
        proof {
            lemma_escape_concat(cs@.take(i as int), seq![c]);
            assert(cs@.take(i + 1) =~= cs@.take(i as int) + seq![c]);
            assert(escape(seq![c]) =~= escape_char(c)) by {
                assert(seq![c].drop_first() =~= Seq::<char>::empty());
                assert(escape(Seq::<char>::empty()) =~= Seq::<char>::empty());
                assert(seq![c][0] == c);
                assert(escape(seq![c]) == escape_char(c) + escape(seq![c].drop_first()));
            }
        }
        if c == '.' || c == '\\' {
            push_char(out, '\\');
        }
        push_char(out, c);
        assert(out@ =~= start + escape(cs@.take(i + 1)));
        i = i + 1;
    }
    assert(cs@.take(cs@.len() as int) =~= cs@);
}

/// The id of the record of relation `name` from atoms of type `source`.
pub fn make_relation_id(source: &str, name: &str) -> (r: String)
    ensures
        r@ == relation_id(source@, name@),
{
    let mut out = String::new();
    push_escaped(&mut out, source);
    push_char(&mut out, '.');
    push_escaped(&mut out, name);
    assert(out@ =~= relation_id(source@, name@));
    out
}

} // verus!
