//! The order in which the children of a directory are shown: directories
//! first, and names byte by byte.

use vstd::prelude::*;

verus! {

/// How one value stands to another in an order.
#[derive(Clone, Copy, Debug, PartialEq, Eq, Structural)]
pub enum Order {
    Less,
    Equal,
    Greater,
}

/// What a child is ordered by: whether it is a directory, and its name.
pub struct ChildKey {
    pub dir: bool,
    pub name: Seq<u8>,
}

/// The order of byte strings by their first difference, a proper prefix
/// before what it is a prefix of.
pub open spec fn lexical(a: Seq<u8>, b: Seq<u8>) -> Order
    decreases a.len(),
{
    if a.len() == 0 && b.len() == 0 {
        Order::Equal
    } else if a.len() == 0 {
        Order::Less
    } else if b.len() == 0 {
        Order::Greater
    } else if a[0] < b[0] {
        Order::Less
    } else if a[0] > b[0] {
        Order::Greater
    } else {
        lexical(a.skip(1), b.skip(1))
    }
}

/// The order of children: a directory before a file, and two of a kind by
/// their names.
pub open spec fn child_order(a: ChildKey, b: ChildKey) -> Order {
    if a.dir && !b.dir {
        Order::Less
    } else if !a.dir && b.dir {
        Order::Greater
    } else {
        lexical(a.name, b.name)
    }
}

/// The children stand in ascending order.
pub open spec fn ascending(keys: Seq<ChildKey>) -> bool {
    forall|i: int, j: int|
        0 <= i < j < keys.len() ==> !(child_order(#[trigger] keys[j], #[trigger] keys[i]) is Less)
}

/// How `a` stands to `b` in the order of byte strings.
pub fn compare_bytes(a: &[u8], b: &[u8]) -> (order: Order)
    ensures
        order == lexical(a@, b@),
{
    let mut i: usize = 0;
    assert(a@.skip(0) =~= a@);
    assert(b@.skip(0) =~= b@);
    while i < a.len() && i < b.len()
        invariant
            i <= a.len(),
            i <= b.len(),
            lexical(a@, b@) == lexical(a@.skip(i as int), b@.skip(i as int)),
        decreases a.len() - i,
    {
        let ghost x = a@.skip(i as int);
        let ghost y = b@.skip(i as int);
        assert(x[0] == a@[i as int]);
        assert(y[0] == b@[i as int]);
        if a[i] < b[i] {
            return Order::Less;
        }
        if a[i] > b[i] {
            return Order::Greater;
        }
        assert(x.skip(1) =~= a@.skip(i as int + 1));
        assert(y.skip(1) =~= b@.skip(i as int + 1));
        i += 1;
    }
    if i < b.len() {
        Order::Less
    } else if i < a.len() {
        Order::Greater
    } else {
        Order::Equal
    }
}

/// Only equal byte strings stand equal in the order.
pub proof fn lemma_lexical_equal(a: Seq<u8>, b: Seq<u8>)
    ensures
        lexical(a, b) is Equal <==> a == b,
    decreases a.len(),
{
    if a.len() > 0 && b.len() > 0 && a[0] == b[0] {
        lemma_lexical_equal(a.skip(1), b.skip(1));
        if a.skip(1) == b.skip(1) {
            assert(a =~= seq![a[0]] + a.skip(1));
            assert(b =~= seq![b[0]] + b.skip(1));
        }
    } else if a.len() == 0 && b.len() == 0 {
        assert(a =~= b);
    }
}

/// One byte string is before another exactly if the other is after it.
pub proof fn lemma_lexical_mirror(a: Seq<u8>, b: Seq<u8>)
    ensures
        lexical(a, b) is Less <==> lexical(b, a) is Greater,
        lexical(a, b) is Equal <==> lexical(b, a) is Equal,
    decreases a.len(),
{
    if a.len() > 0 && b.len() > 0 && a[0] == b[0] {
        lemma_lexical_mirror(a.skip(1), b.skip(1));
    }
}

/// What is before something that is before a third is before the third.
pub proof fn lemma_lexical_transitive(a: Seq<u8>, b: Seq<u8>, c: Seq<u8>)
    requires
        lexical(a, b) is Less,
        lexical(b, c) is Less,
    ensures
        lexical(a, c) is Less,
    decreases a.len(),
{
    if a.len() > 0 && b.len() > 0 && c.len() > 0 && a[0] == b[0] && b[0] == c[0] {
        lemma_lexical_transitive(a.skip(1), b.skip(1), c.skip(1));
    }
}

/// The order of children is a total order: each child stands equal to
/// itself and to no child of another kind or name, one is before another
/// exactly if the other is after it, and being before carries over.
pub proof fn law_child_order_is_total(a: ChildKey, b: ChildKey, c: ChildKey)
    ensures
        child_order(a, b) is Equal <==> a.dir == b.dir && a.name == b.name,
        child_order(a, b) is Less <==> child_order(b, a) is Greater,
        child_order(a, b) is Less && child_order(b, c) is Less ==> child_order(a, c) is Less,
{
    lemma_lexical_equal(a.name, b.name);
    lemma_lexical_mirror(a.name, b.name);
    if child_order(a, b) is Less && child_order(b, c) is Less {
        if a.dir == b.dir && b.dir == c.dir {
            lemma_lexical_transitive(a.name, b.name, c.name);
        }
    }
}

} // verus!
