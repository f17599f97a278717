//! An ordered list of distinct keys in which a key in hand is found,
//! removed or given a neighbour without a walk along the list.

use vstd::prelude::*;
use std::collections::HashMap;

verus! {

broadcast use vstd::std_specs::hash::group_hash_axioms;

/// The key at place `i` of `s`, if `s` has such a place.
pub open spec fn at_place(s: Seq<u128>, i: int) -> Option<u128> {
    if 0 <= i < s.len() {
        Some(s[i])
    } else {
        None
    }
}

/// The neighbours of a key.
#[derive(Clone, Copy)]
struct Link {
    prev: Option<u128>,
    next: Option<u128>,
}

/// Whether `map`, `head` and `tail` are the links of the list `s`, which has
/// no key twice.
spec fn linked(s: Seq<u128>, map: Map<u128, Link>, head: Option<u128>, tail: Option<u128>) -> bool {
    &&& s.no_duplicates()
    &&& forall|k: u128| map.contains_key(k) <==> s.contains(k)
    &&& forall|i: int|
        0 <= i < s.len() ==> map[#[trigger] s[i]] == (Link {
            prev: at_place(s, i - 1),
            next: at_place(s, i + 1),
        })
    &&& head == at_place(s, 0)
    &&& tail == at_place(s, s.len() - 1)
}

/// The links of `s` once the key `k` is put at place `at`.
spec fn spliced(s: Seq<u128>, map: Map<u128, Link>, at: int, k: u128) -> Map<u128, Link> {
    let with_key = map.insert(k, Link { prev: at_place(s, at - 1), next: at_place(s, at) });
    let with_prev = if at >= 1 {
        with_key.insert(s[at - 1], Link { prev: map[s[at - 1]].prev, next: Some(k) })
    } else {
        with_key
    };
    if at < s.len() {
        with_prev.insert(s[at], Link { prev: Some(k), next: map[s[at]].next })
    } else {
        with_prev
    }
}

/// The links of `s` once the key at place `at` is taken out.
spec fn cut(s: Seq<u128>, map: Map<u128, Link>, at: int) -> Map<u128, Link> {
    let without = map.remove(s[at]);
    let with_prev = if at >= 1 {
        without.insert(s[at - 1], Link { prev: map[s[at - 1]].prev, next: at_place(s, at + 1) })
    } else {
        without
    };
    if at + 1 < s.len() {
        with_prev.insert(s[at + 1], Link { prev: at_place(s, at - 1), next: map[s[at + 1]].next })
    } else {
        with_prev
    }
}

/// A key of a list without repetitions is at one place only.
proof fn lemma_place(s: Seq<u128>, i: int)
    requires
        s.no_duplicates(),
        0 <= i < s.len(),
    ensures
        s.index_of(s[i]) == i,
        s.contains(s[i]),
{
    let j = s.index_of(s[i]);
    assert(s[j] == s[i]);
}

/// Putting a key into a list keeps the links in step with the list.
proof fn lemma_spliced(
    s: Seq<u128>,
    map: Map<u128, Link>,
    head: Option<u128>,
    tail: Option<u128>,
    at: int,
    k: u128,
)
    requires
        linked(s, map, head, tail),
        !s.contains(k),
        0 <= at <= s.len(),
    ensures
        linked(
            s.insert(at, k),
            spliced(s, map, at, k),
            if at == 0 {
                Some(k)
            } else {
                head
            },
            if at == s.len() {
                Some(k)
            } else {
                tail
            },
        ),
{
    let t = s.insert(at, k);
    let m = spliced(s, map, at, k);
    assert forall|i: int| 0 <= i < t.len() implies #[trigger] t[i] == (if i < at {
        s[i]
    } else if i == at {
        k
    } else {
        s[i - 1]
    }) by {}
    assert forall|i: int, j: int| 0 <= i < t.len() && 0 <= j < t.len() && i != j implies t[i]
        != t[j] by {
        if i != at {
            lemma_place(s, if i < at { i } else { i - 1 });
        }
        if j != at {
            lemma_place(s, if j < at { j } else { j - 1 });
        }
    }
    assert forall|x: u128| m.contains_key(x) <==> t.contains(x) by {
        if t.contains(x) {
            let i = choose|i: int| 0 <= i < t.len() && t[i] == x;
            if i != at {
                lemma_place(s, if i < at { i } else { i - 1 });
            }
        }
        if at >= 1 {
            lemma_place(s, at - 1);
        }
        if at < s.len() {
            lemma_place(s, at);
        }
        if m.contains_key(x) {
            if x == k {
                assert(t[at] == k);
            } else {
                assert(s.contains(x));
                let j = choose|j: int| 0 <= j < s.len() && s[j] == x;
                assert(t[if j < at { j } else { j + 1 }] == x);
            }
        }
    }
    assert forall|i: int| 0 <= i < t.len() implies m[#[trigger] t[i]] == (Link {
        prev: at_place(t, i - 1),
        next: at_place(t, i + 1),
    }) by {
        if at >= 1 {
            lemma_place(s, at - 1);
        }
        if at < s.len() {
            lemma_place(s, at);
        }
        if i != at {
            let j = if i < at { i } else { i - 1 };
            lemma_place(s, j);
            assert(map[s[j]] == (Link { prev: at_place(s, j - 1), next: at_place(s, j + 1) }));
        }
    }
}

/// Taking a key out of a list keeps the links in step with the list.
proof fn lemma_cut(
    s: Seq<u128>,
    map: Map<u128, Link>,
    head: Option<u128>,
    tail: Option<u128>,
    at: int,
)
    requires
        linked(s, map, head, tail),
        0 <= at < s.len(),
    ensures
        linked(
            s.remove(at),
            cut(s, map, at),
            if at == 0 {
                at_place(s, 1)
            } else {
                head
            },
            if at == s.len() - 1 {
                at_place(s, at - 1)
            } else {
                tail
            },
        ),
{
    let t = s.remove(at);
    let m = cut(s, map, at);
    assert forall|i: int| 0 <= i < t.len() implies #[trigger] t[i] == (if i < at {
        s[i]
    } else {
        s[i + 1]
    }) by {}
    lemma_place(s, at);
    if at >= 1 {
        lemma_place(s, at - 1);
    }
    if at + 1 < s.len() {
        lemma_place(s, at + 1);
    }
    assert forall|i: int, j: int| 0 <= i < t.len() && 0 <= j < t.len() && i != j implies t[i]
        != t[j] by {
        lemma_place(s, if i < at { i } else { i + 1 });
        lemma_place(s, if j < at { j } else { j + 1 });
    }
    assert forall|x: u128| m.contains_key(x) <==> t.contains(x) by {
        if t.contains(x) {
            let i = choose|i: int| 0 <= i < t.len() && t[i] == x;
            lemma_place(s, if i < at { i } else { i + 1 });
        }
        if m.contains_key(x) {
            assert(s.contains(x));
            let j = choose|j: int| 0 <= j < s.len() && s[j] == x;
            lemma_place(s, j);
            assert(t[if j < at { j } else { j - 1 }] == x);
        }
    }
    assert forall|i: int| 0 <= i < t.len() implies m[#[trigger] t[i]] == (Link {
        prev: at_place(t, i - 1),
        next: at_place(t, i + 1),
    }) by {
        let j = if i < at { i } else { i + 1 };
        lemma_place(s, j);
        assert(map[s[j]] == (Link { prev: at_place(s, j - 1), next: at_place(s, j + 1) }));
    }
}

/// The links of a list: for each key its neighbours, and the two ends.
struct Links {
    head: Option<u128>,
    tail: Option<u128>,
    map: HashMap<u128, Link>,
    order: Ghost<Seq<u128>>,
}

impl Links {
    /// The links are those of the list `order`, which has no key twice.
    spec fn coherent(&self) -> bool {
        linked(self.order@, self.map@, self.head, self.tail)
    }

    fn new() -> (links: Links)
        ensures
            links.coherent(),
            links.order@ == Seq::<u128>::empty(),
    {
        Links { head: None, tail: None, map: HashMap::new(), order: Ghost(Seq::empty()) }
    }

    /// The neighbours of the key `k`.
    fn link(&self, k: u128) -> (link: Link)
        requires
            self.map@.contains_key(k),
        ensures
            link == self.map@[k],
    {
        match self.map.get(&k) {
            Some(link) => *link,
            None => Link { prev: None, next: None },
        }
    }

    /// Puts the key `k` between the neighbours `prev` and `next`, at place
    /// `at`.
    fn insert(&mut self, prev: Option<u128>, next: Option<u128>, k: u128, Ghost(at): Ghost<int>)
        requires
            old(self).coherent(),
            !old(self).order@.contains(k),
            0 <= at <= old(self).order@.len(),
            prev == at_place(old(self).order@, at - 1),
            next == at_place(old(self).order@, at),
        ensures
            final(self).coherent(),
            final(self).order@ == old(self).order@.insert(at, k),
    {
        let ghost s = self.order@;
        let ghost m = self.map@;
        proof {
            lemma_spliced(s, m, self.head, self.tail, at, k);
            if at >= 1 {
                lemma_place(s, at - 1);
            }
            if at < s.len() {
                lemma_place(s, at);
            }
        }
        self.map.insert(k, Link { prev, next });
        match prev {
            Some(p) => {
                let before = self.link(p).prev;
                self.map.insert(p, Link { prev: before, next: Some(k) });
            },
            None => {
                self.head = Some(k);
            },
        }
        match next {
            Some(n) => {
                let after = self.link(n).next;
                self.map.insert(n, Link { prev: Some(k), next: after });
            },
            None => {
                self.tail = Some(k);
            },
        }
        self.order = Ghost(s.insert(at, k));
        proof {
            assert(self.map@ =~= spliced(s, m, at, k));
        }
    }

    /// Takes the key `k` from the list.
    fn remove(&mut self, k: u128)
        requires
            old(self).coherent(),
            old(self).order@.contains(k),
        ensures
            final(self).coherent(),
            final(self).order@ == old(self).order@.remove(old(self).order@.index_of(k)),
    {
        let ghost s = self.order@;
        let ghost at = s.index_of(k);
        let ghost m = self.map@;
        proof {
            assert(0 <= at < s.len() && s[at] == k);
            lemma_cut(s, m, self.head, self.tail, at);
            if at >= 1 {
                lemma_place(s, at - 1);
            }
            if at + 1 < s.len() {
                lemma_place(s, at + 1);
            }
        }
        let link = self.link(k);
        self.map.remove(&k);
        match link.prev {
            Some(p) => {
                let before = self.link(p).prev;
                self.map.insert(p, Link { prev: before, next: link.next });
            },
            None => {
                self.head = link.next;
            },
        }
        match link.next {
            Some(n) => {
                let after = self.link(n).next;
                self.map.insert(n, Link { prev: link.prev, next: after });
            },
            None => {
                self.tail = link.prev;
            },
        }
        self.order = Ghost(s.remove(at));
        proof {
            assert(self.map@ =~= cut(s, m, at));
        }
    }
}

/// An ordered list of distinct keys.
pub struct Chain {
    links: Links,
}

impl View for Chain {
    type V = Seq<u128>;

    closed spec fn view(&self) -> Seq<u128> {
        self.links.order@
    }
}

impl Chain {
    #[verifier::type_invariant]
    spec fn inv(&self) -> bool {
        self.links.coherent()
    }

    /// Creates an empty list.
    pub fn new() -> (chain: Chain)
        ensures
            chain@ == Seq::<u128>::empty(),
    {
        Chain { links: Links::new() }
    }

    /// Whether the list has no key.
    pub fn is_empty(&self) -> (b: bool)
        ensures
            b == (self@.len() == 0),
    {
        proof {
            use_type_invariant(&*self);
        }
        self.links.head.is_none()
    }

    /// Whether the key `k` is in the list.
    pub fn contains(&self, k: u128) -> (b: bool)
        ensures
            b == self@.contains(k),
            self@.no_duplicates(),
    {
        proof {
            use_type_invariant(&*self);
        }
        self.links.map.contains_key(&k)
    }

    /// The first key of the list.
    pub fn first(&self) -> (k: Option<u128>)
        ensures
            k == at_place(self@, 0),
    {
        proof {
            use_type_invariant(&*self);
        }
        self.links.head
    }

    /// The last key of the list.
    pub fn last(&self) -> (k: Option<u128>)
        ensures
            k == at_place(self@, self@.len() - 1),
    {
        proof {
            use_type_invariant(&*self);
        }
        self.links.tail
    }

    /// The key behind the key `k` of the list.
    pub fn next(&self, k: u128) -> (n: Option<u128>)
        requires
            self@.contains(k),
        ensures
            n == at_place(self@, self@.index_of(k) + 1),
    {
        proof {
            use_type_invariant(&*self);
            let i = self@.index_of(k);
            assert(self@[i] == k);
        }
        self.links.link(k).next
    }

    /// The key before the key `k` of the list.
    pub fn prev(&self, k: u128) -> (p: Option<u128>)
        requires
            self@.contains(k),
        ensures
            p == at_place(self@, self@.index_of(k) - 1),
    {
        proof {
            use_type_invariant(&*self);
            let i = self@.index_of(k);
            assert(self@[i] == k);
        }
        self.links.link(k).prev
    }

    /// Puts the key `k`, which is not in the list, at its end.
    pub fn push_back(&mut self, k: u128)
        requires
            !old(self)@.contains(k),
        ensures
            final(self)@ == old(self)@.push(k),
    {
        proof {
            use_type_invariant(&*self);
        }
        let mut links = Links::new();
        std::mem::swap(&mut links, &mut self.links);
        let tail = links.tail;
        let ghost at = links.order@.len() as int;
        links.insert(tail, None, k, Ghost(at));
        proof {
            assert(old(self)@.insert(at, k) =~= old(self)@.push(k));
        }
        self.links = links;
    }

    /// Puts the key `k`, which is not in the list, before the key `anchor`.
    pub fn insert_before(&mut self, anchor: u128, k: u128)
        requires
            old(self)@.contains(anchor),
            !old(self)@.contains(k),
        ensures
            final(self)@ == old(self)@.insert(old(self)@.index_of(anchor), k),
    {
        proof {
            use_type_invariant(&*self);
        }
        let mut links = Links::new();
        std::mem::swap(&mut links, &mut self.links);
        let ghost at = links.order@.index_of(anchor);
        proof {
            assert(links.order@[at] == anchor);
        }
        let prev = links.link(anchor).prev;
        links.insert(prev, Some(anchor), k, Ghost(at));
        self.links = links;
    }

    /// Puts the key `k`, which is not in the list, behind the key `anchor`.
    pub fn insert_after(&mut self, anchor: u128, k: u128)
        requires
            old(self)@.contains(anchor),
            !old(self)@.contains(k),
        ensures
            final(self)@ == old(self)@.insert(old(self)@.index_of(anchor) + 1, k),
    {
        proof {
            use_type_invariant(&*self);
        }
        let mut links = Links::new();
        std::mem::swap(&mut links, &mut self.links);
        let ghost at = links.order@.index_of(anchor);
        proof {
            assert(links.order@[at] == anchor);
        }
        let next = links.link(anchor).next;
        links.insert(Some(anchor), next, k, Ghost(at + 1));
        self.links = links;
    }

    /// Takes the key `k` from the list.
    pub fn remove(&mut self, k: u128)
        requires
            old(self)@.contains(k),
        ensures
            final(self)@ == old(self)@.remove(old(self)@.index_of(k)),
    {
        proof {
            use_type_invariant(&*self);
        }
        let mut links = Links::new();
        std::mem::swap(&mut links, &mut self.links);
        links.remove(k);
        self.links = links;
    }

    /// The keys of the list, in their order.
    pub fn to_vec(&self) -> (keys: Vec<u128>)
        ensures
            keys@ == self@,
    {
        proof {
            use_type_invariant(&*self);
        }
        let mut keys: Vec<u128> = Vec::new();
        let mut at = self.links.head;
        let ghost s = self@;
        let ghost mut i: int = 0;
        while at.is_some()
            invariant
                self.links.coherent(),
                s == self.links.order@,
                0 <= i <= s.len(),
                at == at_place(s, i),
                keys@ == s.take(i),
            decreases s.len() - i,
        {
            let k = at.unwrap();
            proof {
                assert(s[i] == k);
                lemma_place(s, i);
                assert(s.take(i).push(k) =~= s.take(i + 1));
            }
            keys.push(k);
            at = self.links.link(k).next;
            proof {
                i = i + 1;
            }
        }
        proof {
            assert(s.take(i) =~= s);
        }
        keys
    }
}

} // verus!
