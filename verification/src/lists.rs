//! The lists of the representation: lists of edges, for the uses of a
//! value, and lists of values, for the instructions of a basic block and
//! for the values that name a basic block. Either gives an entry in hand
//! its place at once.

use vstd::prelude::*;
use crate::chain::Chain;
use crate::entities::{Use, ValueId};

verus! {

/// The key of an edge: the number of its user, and behind it the number of
/// its slot.
pub open spec fn use_key(u: Use) -> u128 {
    (u.user.0 * 0x1_0000_0000_0000_0000 + u.index) as u128
}

/// The edge that has the key `k`.
pub open spec fn key_use(k: u128) -> Use {
    Use {
        user: ValueId((k / 0x1_0000_0000_0000_0000) as usize),
        index: (k % 0x1_0000_0000_0000_0000) as usize,
    }
}

/// Whether `k` is the key of an edge.
pub open spec fn is_use_key(k: u128) -> bool {
    &&& k / 0x1_0000_0000_0000_0000 <= usize::MAX
    &&& k % 0x1_0000_0000_0000_0000 <= usize::MAX
}

/// The edges that have the keys `keys`.
pub open spec fn key_uses(keys: Seq<u128>) -> Seq<Use> {
    Seq::new(keys.len(), |i: int| key_use(keys[i]))
}

/// An edge is known by its key.
pub proof fn lemma_use_key(u: Use)
    ensures
        is_use_key(use_key(u)),
        key_use(use_key(u)) == u,
{
}

/// A key of an edge is known by its edge.
pub proof fn lemma_key_use(k: u128)
    requires
        is_use_key(k),
    ensures
        use_key(key_use(k)) == k,
{
}

/// Computes the key of the edge `u`.
fn pack(u: Use) -> (k: u128)
    ensures
        k == use_key(u),
{
    (u.user.0 as u128) * 0x1_0000_0000_0000_0000 + (u.index as u128)
}

/// Computes the edge that has the key `k`.
fn unpack(k: u128) -> (u: Use)
    requires
        is_use_key(k),
    ensures
        u == key_use(k),
{
    Use {
        user: ValueId((k / 0x1_0000_0000_0000_0000) as usize),
        index: (k % 0x1_0000_0000_0000_0000) as usize,
    }
}

/// The uses of a value: edges, each once, oldest first.
pub struct UseList {
    chain: Chain,
}

impl View for UseList {
    type V = Seq<Use>;

    closed spec fn view(&self) -> Seq<Use> {
        key_uses(self.chain@)
    }
}

impl UseList {
    #[verifier::type_invariant]
    spec fn inv(&self) -> bool {
        forall|i: int| 0 <= i < self.chain@.len() ==> is_use_key(#[trigger] self.chain@[i])
    }

    /// Creates an empty list.
    pub fn new() -> (list: UseList)
        ensures
            list@ == Seq::<Use>::empty(),
    {
        let list = UseList { chain: Chain::new() };
        proof {
            assert(list@ =~= Seq::<Use>::empty());
        }
        list
    }

    /// Whether the edge `u` is in the list. No edge is in the list twice.
    pub fn contains(&self, u: Use) -> (b: bool)
        ensures
            b == self@.contains(u),
            self@.no_duplicates(),
    {
        proof {
            use_type_invariant(&*self);
        }
        let b = self.chain.contains(pack(u));
        proof {
            let keys = self.chain@;
            lemma_use_key(u);
            if keys.contains(use_key(u)) {
                let i = choose|i: int| 0 <= i < keys.len() && keys[i] == use_key(u);
                assert(self@[i] == u);
            }
            if self@.contains(u) {
                let i = choose|i: int| 0 <= i < self@.len() && self@[i] == u;
                lemma_key_use(keys[i]);
            }
            assert forall|i: int, j: int|
                0 <= i < self@.len() && 0 <= j < self@.len() && i != j implies self@[i]
                != self@[j] by {
                lemma_key_use(keys[i]);
                lemma_key_use(keys[j]);
            }
        }
        b
    }

    /// Whether the list has no edge.
    pub fn is_empty(&self) -> (b: bool)
        ensures
            b == (self@.len() == 0),
    {
        self.chain.is_empty()
    }

    /// The oldest edge of the list.
    pub fn first(&self) -> (u: Option<Use>)
        ensures
            u == if self@.len() > 0 {
                Some(self@[0])
            } else {
                None
            },
    {
        proof {
            use_type_invariant(&*self);
        }
        match self.chain.first() {
            Some(k) => {
                assert(k == self.chain@[0]);
                Some(unpack(k))
            },
            None => None,
        }
    }

    /// The edge that came into the list after the edge `u` of the list.
    pub fn next(&self, u: Use) -> (n: Option<Use>)
        requires
            self@.contains(u),
        ensures
            n == if self@.index_of(u) + 1 < self@.len() {
                Some(self@[self@.index_of(u) + 1])
            } else {
                None
            },
    {
        let here = self.contains(u);
        proof {
            use_type_invariant(&*self);
            lemma_use_key(u);
            let keys = self.chain@;
            let at = self@.index_of(u);
            assert(self@[at] == u);
            lemma_key_use(keys[at]);
            let j = keys.index_of(use_key(u));
            assert(keys[j] == use_key(u));
            assert(self@[j] == u);
            assert(j == at);
        }
        match self.chain.next(pack(u)) {
            Some(k) => {
                assert(k == self.chain@[self@.index_of(u) + 1]);
                Some(unpack(k))
            },
            None => None,
        }
    }

    /// Puts the edge `u`, which is not in the list, at its end.
    pub fn push(&mut self, u: Use)
        requires
            !old(self)@.contains(u),
        ensures
            final(self)@ == old(self)@.push(u),
    {
        let here = self.contains(u);
        proof {
            use_type_invariant(&*self);
            lemma_use_key(u);
        }
        let mut chain = Chain::new();
        std::mem::swap(&mut chain, &mut self.chain);
        proof {
            if chain@.contains(use_key(u)) {
                let i = choose|i: int| 0 <= i < chain@.len() && chain@[i] == use_key(u);
                assert(old(self)@[i] == u);
            }
        }
        chain.push_back(pack(u));
        proof {
            assert(key_uses(chain@) =~= old(self)@.push(u));
            assert forall|i: int| 0 <= i < chain@.len() implies is_use_key(
                #[trigger] chain@[i],
            ) by {
                if i < chain@.len() - 1 {
                    assert(chain@[i] == old(self).chain@[i]);
                }
            }
        }
        self.chain = chain;
    }

    /// Takes the edge `u` from the list.
    pub fn remove(&mut self, u: Use)
        requires
            old(self)@.contains(u),
        ensures
            final(self)@ == old(self)@.remove(old(self)@.index_of(u)),
    {
        let here = self.contains(u);
        proof {
            use_type_invariant(&*self);
            lemma_use_key(u);
        }
        let mut chain = Chain::new();
        std::mem::swap(&mut chain, &mut self.chain);
        let ghost keys = chain@;
        let ghost at = old(self)@.index_of(u);
        proof {
            assert(old(self)@[at] == u);
            lemma_key_use(keys[at]);
            assert(keys[at] == use_key(u));
            let j = keys.index_of(use_key(u));
            assert(keys[j] == use_key(u));
            assert(old(self)@[j] == u);
            assert(j == at);
        }
        chain.remove(pack(u));
        proof {
            assert(key_uses(chain@) =~= old(self)@.remove(at));
            assert forall|i: int| 0 <= i < chain@.len() implies is_use_key(
                #[trigger] chain@[i],
            ) by {
                assert(chain@[i] == keys[if i < at { i } else { i + 1 }]);
            }
        }
        self.chain = chain;
    }

    /// Puts the edge `to`, which is not in the list, in the place of the
    /// edge `from` of the list.
    pub fn replace(&mut self, from: Use, to: Use)
        requires
            old(self)@.contains(from),
            !old(self)@.contains(to),
        ensures
            final(self)@ == old(self)@.update(old(self)@.index_of(from), to),
    {
        let here = self.contains(from);
        proof {
            use_type_invariant(&*self);
            lemma_use_key(from);
            lemma_use_key(to);
        }
        let mut chain = Chain::new();
        std::mem::swap(&mut chain, &mut self.chain);
        let ghost keys = chain@;
        let ghost at = old(self)@.index_of(from);
        proof {
            assert(old(self)@[at] == from);
            lemma_key_use(keys[at]);
            assert(keys[at] == use_key(from));
            let j = keys.index_of(use_key(from));
            assert(keys[j] == use_key(from));
            assert(old(self)@[j] == from);
            assert(j == at);
            if keys.contains(use_key(to)) {
                let i = choose|i: int| 0 <= i < keys.len() && keys[i] == use_key(to);
                assert(old(self)@[i] == to);
            }
        }
        chain.insert_before(pack(from), pack(to));
        let still = chain.contains(pack(from));
        let ghost longer = chain@;
        proof {
            assert(longer[at + 1] == use_key(from));
            let j = longer.index_of(use_key(from));
            assert(longer[j] == use_key(from));
            assert(j == at + 1);
        }
        chain.remove(pack(from));
        proof {
            assert(chain@ =~= keys.update(at, use_key(to)));
            assert(key_uses(chain@) =~= old(self)@.update(at, to));
            assert forall|i: int| 0 <= i < chain@.len() implies is_use_key(
                #[trigger] chain@[i],
            ) by {
                if i != at {
                    assert(chain@[i] == keys[i]);
                }
            }
        }
        self.chain = chain;
    }

    /// The edges of the list, in their order.
    pub fn to_vec(&self) -> (uses: Vec<Use>)
        ensures
            uses@ == self@,
    {
        proof {
            use_type_invariant(&*self);
        }
        let keys = self.chain.to_vec();
        let mut uses: Vec<Use> = Vec::new();
        let mut i: usize = 0;
        while i < keys.len()
            invariant
                i <= keys.len(),
                keys@ == self.chain@,
                forall|j: int| 0 <= j < keys.len() ==> is_use_key(#[trigger] keys[j]),
                uses@ == key_uses(keys@.take(i as int)),
            decreases keys.len() - i,
        {
            uses.push(unpack(keys[i]));
            proof {
                assert(uses@ =~= key_uses(keys@.take(i + 1)));
            }
            i += 1;
        }
        proof {
            assert(keys@.take(keys.len() as int) =~= keys@);
        }
        uses
    }
}

/// The key of a value: its number.
pub open spec fn value_key(v: ValueId) -> u128 {
    v.0 as u128
}

/// The values that have the keys `keys`.
pub open spec fn key_values(keys: Seq<u128>) -> Seq<ValueId> {
    Seq::new(keys.len(), |i: int| ValueId(keys[i] as usize))
}

/// A list of values, each once, in the order in which they were put.
pub struct ValueList {
    chain: Chain,
}

impl View for ValueList {
    type V = Seq<ValueId>;

    closed spec fn view(&self) -> Seq<ValueId> {
        key_values(self.chain@)
    }
}

impl ValueList {
    #[verifier::type_invariant]
    spec fn inv(&self) -> bool {
        forall|i: int| 0 <= i < self.chain@.len() ==> #[trigger] self.chain@[i] <= usize::MAX
    }

    /// Creates an empty list.
    pub fn new() -> (list: ValueList)
        ensures
            list@ == Seq::<ValueId>::empty(),
    {
        let list = ValueList { chain: Chain::new() };
        proof {
            assert(list@ =~= Seq::<ValueId>::empty());
        }
        list
    }

    /// The place of `v` in the list is that of its key among the keys.
    proof fn lemma_found(keys: Seq<u128>, v: ValueId)
        requires
            forall|i: int| 0 <= i < keys.len() ==> #[trigger] keys[i] <= usize::MAX,
            keys.no_duplicates(),
        ensures
            key_values(keys).no_duplicates(),
            key_values(keys).contains(v) == keys.contains(value_key(v)),
            keys.contains(value_key(v)) ==> key_values(keys).index_of(v) == keys.index_of(
                value_key(v),
            ),
    {
        let vals = key_values(keys);
        if keys.contains(value_key(v)) {
            let i = keys.index_of(value_key(v));
            assert(keys[i] == value_key(v));
            assert(vals[i] == v);
            let j = vals.index_of(v);
            assert(vals[j] == v);
            assert(keys[j] == value_key(v));
        }
        if vals.contains(v) {
            let i = choose|i: int| 0 <= i < vals.len() && vals[i] == v;
            assert(keys[i] == value_key(v));
        }
        assert forall|i: int, j: int|
            0 <= i < vals.len() && 0 <= j < vals.len() && i != j implies vals[i] != vals[j] by {
            assert(keys[i] != keys[j]);
        }
    }

    /// Whether the value `v` is in the list, where its key is among the
    /// keys.
    fn find(&self, v: ValueId) -> (b: bool)
        ensures
            b == self@.contains(v),
            self@.no_duplicates(),
            b == self.chain@.contains(value_key(v)),
            self.chain@.no_duplicates(),
            b ==> self@.index_of(v) == self.chain@.index_of(value_key(v)),
    {
        let b = self.chain.contains(v.0 as u128);
        proof {
            use_type_invariant(&*self);
            Self::lemma_found(self.chain@, v);
        }
        b
    }

    /// Whether the value `v` is in the list. No value is in the list twice.
    pub fn contains(&self, v: ValueId) -> (b: bool)
        ensures
            b == self@.contains(v),
            self@.no_duplicates(),
    {
        self.find(v)
    }

    /// Whether the list has no value.
    pub fn is_empty(&self) -> (b: bool)
        ensures
            b == (self@.len() == 0),
    {
        self.chain.is_empty()
    }

    /// The first value of the list.
    pub fn first(&self) -> (v: Option<ValueId>)
        ensures
            v == if self@.len() > 0 {
                Some(self@[0])
            } else {
                None
            },
    {
        proof {
            use_type_invariant(&*self);
        }
        match self.chain.first() {
            Some(k) => {
                assert(k == self.chain@[0]);
                Some(ValueId(k as usize))
            },
            None => None,
        }
    }

    /// The value behind the value `v` of the list.
    pub fn next(&self, v: ValueId) -> (n: Option<ValueId>)
        requires
            self@.contains(v),
        ensures
            n == if self@.index_of(v) + 1 < self@.len() {
                Some(self@[self@.index_of(v) + 1])
            } else {
                None
            },
    {
        let here = self.find(v);
        proof {
            use_type_invariant(&*self);
        }
        match self.chain.next(v.0 as u128) {
            Some(k) => {
                assert(k == self.chain@[self@.index_of(v) + 1]);
                Some(ValueId(k as usize))
            },
            None => None,
        }
    }

    /// The value before the value `v` of the list.
    pub fn prev(&self, v: ValueId) -> (p: Option<ValueId>)
        requires
            self@.contains(v),
        ensures
            p == if self@.index_of(v) > 0 {
                Some(self@[self@.index_of(v) - 1])
            } else {
                None
            },
    {
        let here = self.find(v);
        proof {
            use_type_invariant(&*self);
            let at = self.chain@.index_of(value_key(v));
            assert(self.chain@[at] == value_key(v));
        }
        match self.chain.prev(v.0 as u128) {
            Some(k) => {
                assert(k == self.chain@[self@.index_of(v) - 1]);
                Some(ValueId(k as usize))
            },
            None => None,
        }
    }

    /// The last value of the list.
    pub fn last(&self) -> (v: Option<ValueId>)
        ensures
            v == if self@.len() > 0 {
                Some(self@.last())
            } else {
                None
            },
    {
        proof {
            use_type_invariant(&*self);
        }
        match self.chain.last() {
            Some(k) => {
                assert(k == self.chain@[self.chain@.len() - 1]);
                Some(ValueId(k as usize))
            },
            None => None,
        }
    }

    /// Puts the value `v`, which is not in the list, at its end.
    pub fn push(&mut self, v: ValueId)
        requires
            !old(self)@.contains(v),
        ensures
            final(self)@ == old(self)@.push(v),
    {
        let here = self.find(v);
        proof {
            use_type_invariant(&*self);
        }
        let mut chain = Chain::new();
        std::mem::swap(&mut chain, &mut self.chain);
        chain.push_back(v.0 as u128);
        proof {
            assert(key_values(chain@) =~= old(self)@.push(v));
            assert forall|i: int| 0 <= i < chain@.len() implies #[trigger] chain@[i]
                <= usize::MAX by {
                if i < chain@.len() - 1 {
                    assert(chain@[i] == old(self).chain@[i]);
                }
            }
        }
        self.chain = chain;
    }

    /// Puts the value `v`, which is not in the list, right before or right
    /// behind the value `anchor` of the list.
    pub fn insert(&mut self, anchor: ValueId, v: ValueId, behind: bool)
        requires
            old(self)@.contains(anchor),
            !old(self)@.contains(v),
        ensures
            final(self)@ == old(self)@.insert(
                old(self)@.index_of(anchor) + if behind {
                    1int
                } else {
                    0int
                },
                v,
            ),
    {
        let here = self.find(v);
        let there = self.find(anchor);
        proof {
            use_type_invariant(&*self);
        }
        let mut chain = Chain::new();
        std::mem::swap(&mut chain, &mut self.chain);
        let ghost keys = chain@;
        let ghost at = old(self)@.index_of(anchor) + if behind { 1int } else { 0int };
        proof {
            let p = keys.index_of(value_key(anchor));
            assert(keys[p] == value_key(anchor));
        }
        if behind {
            chain.insert_after(anchor.0 as u128, v.0 as u128);
        } else {
            chain.insert_before(anchor.0 as u128, v.0 as u128);
        }
        proof {
            assert(chain@ == keys.insert(at, value_key(v)));
            assert(key_values(chain@) =~= old(self)@.insert(at, v));
            assert forall|i: int| 0 <= i < chain@.len() implies #[trigger] chain@[i]
                <= usize::MAX by {
                if i != at {
                    assert(chain@[i] == keys[if i < at { i } else { i - 1 }]);
                }
            }
        }
        self.chain = chain;
    }

    /// Takes the value `v` from the list.
    pub fn remove(&mut self, v: ValueId)
        requires
            old(self)@.contains(v),
        ensures
            final(self)@ == old(self)@.remove(old(self)@.index_of(v)),
    {
        let here = self.find(v);
        proof {
            use_type_invariant(&*self);
        }
        let mut chain = Chain::new();
        std::mem::swap(&mut chain, &mut self.chain);
        let ghost keys = chain@;
        let ghost at = old(self)@.index_of(v);
        proof {
            assert(keys[at] == value_key(v));
        }
        chain.remove(v.0 as u128);
        proof {
            assert(key_values(chain@) =~= old(self)@.remove(at));
            assert forall|i: int| 0 <= i < chain@.len() implies #[trigger] chain@[i]
                <= usize::MAX by {
                assert(chain@[i] == keys[if i < at { i } else { i + 1 }]);
            }
        }
        self.chain = chain;
    }

    /// The values of the list, in their order.
    pub fn to_vec(&self) -> (values: Vec<ValueId>)
        ensures
            values@ == self@,
    {
        proof {
            use_type_invariant(&*self);
        }
        let keys = self.chain.to_vec();
        let mut values: Vec<ValueId> = Vec::new();
        let mut i: usize = 0;
        while i < keys.len()
            invariant
                i <= keys.len(),
                keys@ == self.chain@,
                forall|j: int| 0 <= j < keys.len() ==> #[trigger] keys[j] <= usize::MAX,
                values@ == key_values(keys@.take(i as int)),
            decreases keys.len() - i,
        {
            values.push(ValueId(keys[i] as usize));
            proof {
                assert(values@ =~= key_values(keys@.take(i + 1)));
            }
            i += 1;
        }
        proof {
            assert(keys@.take(keys.len() as int) =~= keys@);
        }
        values
    }
}

} // verus!
