//! Paths as lists of names, and the order in which directories are taken.

use vstd::prelude::*;
use vstd::slice::slice_to_vec;

verus! {

/// A path: a root as it was given, and the names of the steps down from there. Names are held as
/// the bytes that the operating system uses.
pub struct Location {
    pub root: Vec<u8>,
    pub parts: Vec<Vec<u8>>,
}

/// A path: a root as it was given, and the names of the steps down from there.
pub struct LocationView {
    pub root: Seq<u8>,
    pub parts: Seq<Seq<u8>>,
}

impl View for Location {
    type V = LocationView;

    open spec fn view(&self) -> LocationView {
        LocationView { root: self.root@, parts: names(self.parts@) }
    }
}

/// The bytes of each name of a list.
pub open spec fn names(parts: Seq<Vec<u8>>) -> Seq<Seq<u8>> {
    Seq::new(parts.len(), |i: int| parts[i]@)
}

/// Copies a list of names.
pub fn copy_names(parts: &Vec<Vec<u8>>) -> (copy: Vec<Vec<u8>>)
    ensures
        names(copy@) == names(parts@),
{
    let mut copy: Vec<Vec<u8>> = Vec::new();
    let mut i: usize = 0;
    assert(names(copy@) =~= names(parts@).take(0));
    while i < parts.len()
        invariant
            i <= parts@.len(),
            names(copy@) =~= names(parts@).take(i as int),
        decreases parts@.len() - i,
    {
        let ghost before = copy@;
        copy.push(slice_to_vec(parts[i].as_slice()));
        assert(copy@.last()@ == parts@[i as int]@);
        assert(names(copy@) =~= names(before).push(parts@[i as int]@));
        i += 1;
    }
    assert(names(parts@).take(i as int) =~= names(parts@));
    copy
}

// ---------------------------------------------------------------------------------------------
// Order
// ---------------------------------------------------------------------------------------------
/// Does the name `a` come no later than `b`? Names are compared byte by byte, and a name comes
/// before its continuations.
pub open spec fn name_at_most(a: Seq<u8>, b: Seq<u8>) -> bool
    decreases a.len(),
{
    if a.len() == 0 {
        true
    } else if b.len() == 0 {
        false
    } else if a[0] == b[0] {
        name_at_most(a.skip(1), b.skip(1))
    } else {
        a[0] < b[0]
    }
}

/// Does the path `a` come no later than `b`? Paths are compared name by name, and a directory
/// comes before those below it.
pub open spec fn path_at_most(a: Seq<Seq<u8>>, b: Seq<Seq<u8>>) -> bool
    decreases a.len(),
{
    if a.len() == 0 {
        true
    } else if b.len() == 0 {
        false
    } else if a[0] == b[0] {
        path_at_most(a.skip(1), b.skip(1))
    } else {
        name_at_most(a[0], b[0])
    }
}

pub proof fn lemma_name_total(a: Seq<u8>, b: Seq<u8>)
    ensures
        name_at_most(a, b) || name_at_most(b, a),
        name_at_most(a, b) && name_at_most(b, a) ==> a == b,
    decreases a.len(),
{
    if a.len() > 0 && b.len() > 0 && a[0] == b[0] {
        lemma_name_total(a.skip(1), b.skip(1));
        if a.skip(1) == b.skip(1) {
            assert(a =~= seq![a[0]] + a.skip(1));
            assert(b =~= seq![b[0]] + b.skip(1));
        }
    } else if a.len() == 0 && b.len() == 0 {
        assert(a =~= b);
    }
}

pub proof fn lemma_name_chains(a: Seq<u8>, b: Seq<u8>, c: Seq<u8>)
    requires
        name_at_most(a, b),
        name_at_most(b, c),
    ensures
        name_at_most(a, c),
    decreases a.len(),
{
    if a.len() > 0 && b.len() > 0 && c.len() > 0 && a[0] == b[0] && b[0] == c[0] {
        lemma_name_chains(a.skip(1), b.skip(1), c.skip(1));
    }
}

pub proof fn lemma_path_total(a: Seq<Seq<u8>>, b: Seq<Seq<u8>>)
    ensures
        path_at_most(a, b) || path_at_most(b, a),
        path_at_most(a, b) && path_at_most(b, a) ==> a == b,
    decreases a.len(),
{
    if a.len() > 0 && b.len() > 0 {
        if a[0] == b[0] {
            lemma_path_total(a.skip(1), b.skip(1));
            if a.skip(1) == b.skip(1) {
                assert(a =~= seq![a[0]] + a.skip(1));
                assert(b =~= seq![b[0]] + b.skip(1));
            }
        } else {
            lemma_name_total(a[0], b[0]);
        }
    } else if a.len() == 0 && b.len() == 0 {
        assert(a =~= b);
    }
}

pub proof fn lemma_path_chains(a: Seq<Seq<u8>>, b: Seq<Seq<u8>>, c: Seq<Seq<u8>>)
    requires
        path_at_most(a, b),
        path_at_most(b, c),
    ensures
        path_at_most(a, c),
    decreases a.len(),
{
    if a.len() > 0 && b.len() > 0 && c.len() > 0 {
        if a[0] == b[0] && b[0] == c[0] {
            lemma_path_chains(a.skip(1), b.skip(1), c.skip(1));
        } else if a[0] != b[0] && b[0] != c[0] {
            lemma_name_chains(a[0], b[0], c[0]);
            if a[0] == c[0] {
                lemma_name_total(a[0], b[0]);
            }
        }
    }
}

/// Compares two names. The result says whether they are the same, and whether the first comes no
/// later than the second.
fn compare_names(a: &Vec<u8>, b: &Vec<u8>) -> (result: (bool, bool))
    ensures
        result.0 == (a@ == b@),
        result.1 == name_at_most(a@, b@),
{
    let mut i: usize = 0;
    assert(a@.skip(0) =~= a@);
    assert(b@.skip(0) =~= b@);
    while i < a.len() && i < b.len() && a[i] == b[i]
        invariant
            i <= a@.len(),
            i <= b@.len(),
            a@.take(i as int) =~= b@.take(i as int),
            name_at_most(a@, b@) == name_at_most(a@.skip(i as int), b@.skip(i as int)),
        decreases a@.len() - i,
    {
        assert(a@.skip(i as int).skip(1) =~= a@.skip(i + 1));
        assert(b@.skip(i as int).skip(1) =~= b@.skip(i + 1));
        assert(a@.take(i + 1) =~= a@.take(i as int).push(a@[i as int]));
        assert(b@.take(i + 1) =~= b@.take(i as int).push(b@[i as int]));
        i += 1;
    }
    if i == a.len() {
        if i == b.len() {
            assert(a@.take(i as int) =~= a@);
            assert(b@.take(i as int) =~= b@);
        }
        (i == b.len(), true)
    } else if i == b.len() {
        (false, false)
    } else {
        assert(a@[i as int] != b@[i as int]);
        (false, a[i] < b[i])
    }
}

/// Does the path `a` come no later than `b`?
pub fn path_no_later(a: &Vec<Vec<u8>>, b: &Vec<Vec<u8>>) -> (yes: bool)
    ensures
        yes == path_at_most(names(a@), names(b@)),
{
    let ghost p = names(a@);
    let ghost q = names(b@);
    let mut i: usize = 0;
    assert(p.skip(0) =~= p);
    assert(q.skip(0) =~= q);
    while i < a.len() && i < b.len()
        invariant
            i <= a@.len(),
            i <= b@.len(),
            p == names(a@),
            q == names(b@),
            path_at_most(p, q) == path_at_most(p.skip(i as int), q.skip(i as int)),
        decreases a@.len() - i,
    {
        let (same, first) = compare_names(&a[i], &b[i]);
        if !same {
            return first;
        }
        assert(p.skip(i as int).skip(1) =~= p.skip(i + 1));
        assert(q.skip(i as int).skip(1) =~= q.skip(i + 1));
        i += 1;
    }
    i == a.len()
}

// ---------------------------------------------------------------------------------------------
// What the order comes to
// ---------------------------------------------------------------------------------------------
/// Names are compared at the first byte in which they differ, and a name comes before those that go
/// on behind it.
pub proof fn names_are_compared_at_their_first_difference(
    common: Seq<u8>,
    a: Seq<u8>,
    b: Seq<u8>,
)
    ensures
        name_at_most(common, common + b),
        b.len() > 0 ==> !name_at_most(common + b, common),
        a.len() > 0 && b.len() > 0 && a[0] != b[0] ==> (name_at_most(common + a, common + b)
            <==> a[0] < b[0]),
    decreases common.len(),
{
    if common.len() == 0 {
        assert(common + a =~= a);
        assert(common + b =~= b);
    } else {
        let rest = common.skip(1);
        names_are_compared_at_their_first_difference(rest, a, b);
        assert((common + a).skip(1) =~= rest + a);
        assert((common + b).skip(1) =~= rest + b);
    }
}

/// Paths are compared by the first name in which they differ, and a directory comes before those
/// below it.
pub proof fn paths_are_compared_at_their_first_difference(
    common: Seq<Seq<u8>>,
    a: Seq<Seq<u8>>,
    b: Seq<Seq<u8>>,
)
    ensures
        path_at_most(common, common + b),
        b.len() > 0 ==> !path_at_most(common + b, common),
        a.len() > 0 && b.len() > 0 && a[0] != b[0] ==> (path_at_most(common + a, common + b)
            <==> name_at_most(a[0], b[0])),
    decreases common.len(),
{
    if common.len() == 0 {
        assert(common + a =~= a);
        assert(common + b =~= b);
    } else {
        let rest = common.skip(1);
        paths_are_compared_at_their_first_difference(rest, a, b);
        assert((common + a).skip(1) =~= rest + a);
        assert((common + b).skip(1) =~= rest + b);
    }
}

} // verus!
