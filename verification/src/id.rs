//! Identifiers, and the generator that mints them.
//!
//! An [`ID`] is a plain value: copying it copies the number it carries, and
//! two identifiers are the same exactly when their numbers are. A
//! [`Generator`] hands out the numbers 0, 1, 2, ... in turn, so that no two
//! identifiers minted by one generator are ever the same.

use vstd::prelude::*;
use vstd::std_specs::convert::FromSpecImpl;

verus! {

/// An identifier of a node or an edge.
///
/// Its view is the number it carries.
#[derive(Clone, Copy, Debug, PartialEq, Eq, Structural, Hash)]
pub struct ID {
    pub id: usize,
}

impl View for ID {
    type V = nat;

    open spec fn view(&self) -> nat {
        self.id as nat
    }
}

impl ID {
    /// The identifier that carries `id`, whatever any generator has minted.
    pub fn from(id: usize) -> (r: Self)
        ensures
            r == (ID { id }),
            r@ == id,
    {
        ID { id }
    }

    /// The number that the identifier carries.
    pub fn get(&self) -> (r: usize)
        ensures
            r == self@,
    {
        self.id
    }

    /// Makes this identifier carry `value`. Copies taken earlier keep the
    /// number they had.
    pub fn set(&mut self, value: usize)
        ensures
            *final(self) == (ID { id: value }),
            final(self)@ == value,
    {
        self.id = value;
    }

    /// The serialized form of an identifier: the one integer it carries.
    pub open spec fn serialized(self) -> usize {
        self.id
    }

    /// The identifier whose serialized form is `value`.
    pub open spec fn deserialized(value: usize) -> ID {
        ID { id: value }
    }

    /// The integer by which the identifier is stored or sent.
    pub fn serialize(&self) -> (r: usize)
        ensures
            r == self.serialized(),
            r == self@,
    {
        self.id
    }

    /// The identifier that was stored or sent as `value`.
    pub fn deserialize(value: usize) -> (r: Self)
        ensures
            r == Self::deserialized(value),
            r@ == value,
    {
        Self::from(value)
    }

    /// Reading back what was written gives the identifier that was written:
    /// for every number `k`, the identifier made from `k`, serialized and
    /// deserialized again, carries `k`.
    pub proof fn law_serialize_round_trip(k: usize)
        ensures
            Self::deserialized((ID { id: k }).serialized())@ == k,
            Self::deserialized((ID { id: k }).serialized()) == (ID { id: k }),
    {
    }

    /// Identifiers are told apart by their numbers alone.
    pub proof fn law_equal_by_value(a: ID, b: ID)
        ensures
            (a == b) <==> (a@ == b@),
    {
    }
}

impl From<usize> for ID {
    fn from(id: usize) -> (r: Self) {
        ID { id }
    }
}

impl FromSpecImpl<usize> for ID {
    open spec fn obeys_from_spec() -> bool {
        true
    }

    open spec fn from_spec(v: usize) -> Self {
        ID { id: v }
    }
}

impl From<i32> for ID {
    /// A number below zero is taken as the machine word with the same bits.
    fn from(id: i32) -> (r: Self) {
        ID { id: id as usize }
    }
}

impl FromSpecImpl<i32> for ID {
    open spec fn obeys_from_spec() -> bool {
        true
    }

    open spec fn from_spec(v: i32) -> Self {
        ID { id: v as usize }
    }
}

impl From<ID> for usize {
    fn from(id: ID) -> (r: Self) {
        id.id
    }
}

impl FromSpecImpl<ID> for usize {
    open spec fn obeys_from_spec() -> bool {
        true
    }

    open spec fn from_spec(v: ID) -> Self {
        v.id
    }
}

/// What one call of [`Generator::mint`] does to a generator whose view is
/// `v`: the number of the identifier it returns, and the generator's view
/// after the call.
pub open spec fn mint_step(v: nat) -> (nat, nat) {
    (v, v + 1)
}

/// The numbers of the identifiers that `n` calls of [`Generator::mint`] in a
/// row return, the first of them made on a generator whose view is `v`.
pub open spec fn mint_run(v: nat, n: nat) -> Seq<nat>
    decreases n,
{
    if n == 0 {
        Seq::empty()
    } else {
        seq![mint_step(v).0] + mint_run(mint_step(v).1, (n - 1) as nat)
    }
}

/// A source of fresh identifiers.
///
/// Its view is the number that the next identifier will carry, which is also
/// the count of identifiers minted so far.
pub struct Generator {
    next: usize,
}

impl View for Generator {
    type V = nat;

    closed spec fn view(&self) -> nat {
        self.next as nat
    }
}

impl Generator {
    /// A generator whose first identifier carries `first`.
    pub fn starting_at(first: usize) -> (g: Generator)
        ensures
            g@ == first,
    {
        Generator { next: first }
    }

    /// No further identifier can be minted: the numbers below the largest
    /// machine word are used up.
    pub open spec fn exhausted(&self) -> bool {
        self@ >= usize::MAX
    }

    /// Whether the generator has run out of numbers.
    pub fn is_exhausted(&self) -> (r: bool)
        ensures
            r == self.exhausted(),
    {
        self.next == usize::MAX
    }

    /// The number that the next identifier will carry.
    pub fn peek(&self) -> (r: usize)
        ensures
            r == self@,
    {
        self.next
    }

    /// Mints the next identifier: it carries the generator's view, and the
    /// view goes up by one.
    pub fn mint(&mut self) -> (r: ID)
        requires
            !old(self).exhausted(),
        ensures
            (r@, final(self)@) == mint_step(old(self)@),
            r@ == old(self)@,
            final(self)@ == old(self)@ + 1,
    {
        let id = ID::from(self.next);
        self.next = self.next + 1;
        id
    }

    /// A generator's view fits in a machine word.
    pub proof fn lemma_view_bounded(&self)
        ensures
            self@ <= usize::MAX,
    {
    }
}

/// A generator that has minted nothing yet: its first identifier carries 0.
pub fn id_generator() -> (g: Generator)
    ensures
        g@ == 0,
{
    Generator::starting_at(0)
}

/// Calls of `mint` in a row count up: the `i`-th of `n` calls, the first of
/// them made at view `v`, returns `v + i`.
pub proof fn law_mint_counts_up(v: nat, n: nat)
    ensures
        mint_run(v, n).len() == n,
        forall|i: int| 0 <= i < n ==> #[trigger] mint_run(v, n)[i] == v + i,
    decreases n,
{
    if n > 0 {
        law_mint_counts_up(v + 1, (n - 1) as nat);
        let rest = mint_run(v + 1, (n - 1) as nat);
        assert(mint_run(v, n) == seq![v] + rest);
        assert forall|i: int| 0 <= i < n implies #[trigger] mint_run(v, n)[i] == v + i by {
            if i > 0 {
                assert(mint_run(v, n)[i] == rest[i - 1]);
            }
        }
    }
}

/// No two calls of `mint` on one generator return the same identifier.
pub proof fn law_mint_distinct(v: nat, n: nat)
    ensures
        forall|i: int, j: int|
            0 <= i < n && 0 <= j < n && i != j ==> #[trigger] mint_run(v, n)[i]
                != #[trigger] mint_run(v, n)[j],
        mint_run(v, n).no_duplicates(),
{
    law_mint_counts_up(v, n);
}

} // verus!
