//! The header mapping of requests and responses: name/value pairs kept in
//! insertion order, names unique, a later insert of an existing name
//! overwriting the value in place.

use vstd::prelude::*;
use vstd::string::*;
use crate::strutil::str_eq;

verus! {

/// The mapping a pair sequence denotes: a later pair with the same name
/// overwrites an earlier one.
pub open spec fn hmap<V>(h: Seq<(Seq<char>, V)>) -> Map<Seq<char>, V>
    decreases h.len(),
{
    if h.len() == 0 {
        Map::empty()
    } else {
        hmap(h.drop_last()).insert(h.last().0, h.last().1)
    }
}

/// No two pairs share a name.
pub open spec fn keys_unique<V>(h: Seq<(Seq<char>, V)>) -> bool {
    forall|i: int, j: int| 0 <= i < j < h.len() ==> h[i].0 != h[j].0
}

/// Inserting into a pair sequence: the first pair with the same name is
/// overwritten in place; a new name is appended.
pub open spec fn assoc_insert<V>(
    h: Seq<(Seq<char>, V)>,
    k: Seq<char>,
    v: V,
) -> Seq<(Seq<char>, V)>
    decreases h.len(),
{
    if h.len() == 0 {
        seq![(k, v)]
    } else if h[0].0 == k {
        seq![(k, v)] + h.drop_first()
    } else {
        seq![h[0]] + assoc_insert(h.drop_first(), k, v)
    }
}

/// A name that occurs in the sequence is in the mapping, with the value of
/// its last occurrence; under unique names, of its only occurrence.
pub proof fn lemma_hmap_at<V>(h: Seq<(Seq<char>, V)>, i: int)
    requires
        keys_unique(h),
        0 <= i < h.len(),
    ensures
        hmap(h).contains_key(h[i].0),
        hmap(h)[h[i].0] == h[i].1,
    decreases h.len(),
{
    if i < h.len() - 1 {
        lemma_hmap_at(h.drop_last(), i);
    }
}

/// A name that occurs nowhere in the sequence is not in the mapping.
pub proof fn lemma_hmap_absent<V>(h: Seq<(Seq<char>, V)>, k: Seq<char>)
    requires
        forall|i: int| 0 <= i < h.len() ==> h[i].0 != k,
    ensures
        !hmap(h).contains_key(k),
    decreases h.len(),
{
    if h.len() > 0 {
        lemma_hmap_absent(h.drop_last(), k);
    }
}

/// The mapping's names are exactly the names that occur in the sequence.
pub proof fn lemma_hmap_dom<V>(h: Seq<(Seq<char>, V)>, k: Seq<char>)
    ensures
        hmap(h).contains_key(k) <==> exists|i: int| 0 <= i < h.len() && h[i].0 == k,
    decreases h.len(),
{
    if h.len() > 0 {
        lemma_hmap_dom(h.drop_last(), k);
        if hmap(h).contains_key(k) && h.last().0 != k {
            let i = choose|i: int| 0 <= i < h.drop_last().len() && h.drop_last()[i].0 == k;
            assert(h[i].0 == k);
        }
        if exists|i: int| 0 <= i < h.len() && h[i].0 == k {
            let i = choose|i: int| 0 <= i < h.len() && h[i].0 == k;
            if i < h.len() - 1 {
                assert(h.drop_last()[i].0 == k);
            }
        }
    }
}

/// Inserting a name that sits at position `i`, with no earlier occurrence,
/// overwrites that position.
pub proof fn lemma_assoc_insert_found<V>(
    h: Seq<(Seq<char>, V)>,
    k: Seq<char>,
    v: V,
    i: int,
)
    requires
        0 <= i < h.len(),
        h[i].0 == k,
        forall|j: int| 0 <= j < i ==> h[j].0 != k,
    ensures
        assoc_insert(h, k, v) == h.update(i, (k, v)),
    decreases i,
{
    if i == 0 {
        assert(assoc_insert(h, k, v) =~= h.update(0, (k, v)));
    } else {
        assert(forall|j: int| 0 <= j < i - 1 ==> h.drop_first()[j].0 != k);
        lemma_assoc_insert_found(h.drop_first(), k, v, i - 1);
        assert(assoc_insert(h, k, v) =~= h.update(i, (k, v)));
    }
}

/// Inserting a name that occurs nowhere appends the pair.
pub proof fn lemma_assoc_insert_absent<V>(h: Seq<(Seq<char>, V)>, k: Seq<char>, v: V)
    requires
        forall|i: int| 0 <= i < h.len() ==> h[i].0 != k,
    ensures
        assoc_insert(h, k, v) == h.push((k, v)),
    decreases h.len(),
{
    if h.len() == 0 {
        assert(assoc_insert(h, k, v) =~= h.push((k, v)));
    } else {
        lemma_assoc_insert_absent(h.drop_first(), k, v);
        assert(assoc_insert(h, k, v) =~= h.push((k, v)));
    }
}

/// On unique names, `assoc_insert` means `Map::insert`.
pub proof fn lemma_assoc_insert_hmap<V>(h: Seq<(Seq<char>, V)>, k: Seq<char>, v: V)
    requires
        keys_unique(h),
    ensures
        keys_unique(assoc_insert(h, k, v)),
        hmap(assoc_insert(h, k, v)) == hmap(h).insert(k, v),
    decreases h.len(),
{
    lemma_hmap_dom(h, k);
    let m = hmap(h).insert(k, v);
    if exists|i: int| 0 <= i < h.len() && h[i].0 == k {
        let i = choose|i: int| 0 <= i < h.len() && h[i].0 == k;
        assert(forall|j: int| 0 <= j < i ==> h[j].0 != k) by {
            assert(forall|j: int| 0 <= j < i ==> h[j].0 != h[i].0);
        }
        lemma_assoc_insert_found(h, k, v, i);
        let h2 = h.update(i, (k, v));
        assert(keys_unique(h2));
        assert forall|j: int| 0 <= j < h2.len() implies m.contains_key(#[trigger] h2[j].0)
            && m[h2[j].0] == h2[j].1 by {
            if j != i {
                assert(h[j].0 != h[i].0);
                lemma_hmap_at(h, j);
            }
        }
        assert forall|kk: Seq<char>| m.contains_key(kk) implies exists|j: int|
            0 <= j < h2.len() && h2[j].0 == kk by {
            if kk == k {
                assert(h2[i].0 == kk);
            } else {
                lemma_hmap_dom(h, kk);
                let j = choose|j: int| 0 <= j < h.len() && h[j].0 == kk;
                assert(h2[j].0 == kk);
            }
        }
        lemma_hmap_eq_of_pairs(h2, m);
    } else {
        lemma_assoc_insert_absent(h, k, v);
        let h2 = h.push((k, v));
        assert(keys_unique(h2));
        assert forall|j: int| 0 <= j < h2.len() implies m.contains_key(#[trigger] h2[j].0)
            && m[h2[j].0] == h2[j].1 by {
            if j < h.len() {
                assert(h2[j].0 == h[j].0);
                lemma_hmap_at(h, j);
            }
        }
        assert forall|kk: Seq<char>| m.contains_key(kk) implies exists|j: int|
            0 <= j < h2.len() && h2[j].0 == kk by {
            if kk == k {
                assert(h2[h.len() as int].0 == kk);
            } else {
                lemma_hmap_dom(h, kk);
                let j = choose|j: int| 0 <= j < h.len() && h[j].0 == kk;
                assert(h2[j].0 == kk);
            }
        }
        lemma_hmap_eq_of_pairs(h2, m);
    }
}

/// A mapping that agrees with a unique-name pair sequence position by
/// position, and has no other names, is the sequence's mapping.
pub proof fn lemma_hmap_eq_of_pairs<V>(h: Seq<(Seq<char>, V)>, m: Map<Seq<char>, V>)
    requires
        keys_unique(h),
        forall|i: int| 0 <= i < h.len() ==> m.contains_key(#[trigger] h[i].0) && m[h[i].0]
            == h[i].1,
        forall|k: Seq<char>| m.contains_key(k) ==> exists|i: int| 0 <= i < h.len() && h[i].0 == k,
    ensures
        hmap(h) == m,
{
    assert forall|k: Seq<char>| hmap(h).dom().contains(k) == m.dom().contains(k) by {
        lemma_hmap_dom(h, k);
        if hmap(h).contains_key(k) {
            let i = choose|i: int| 0 <= i < h.len() && h[i].0 == k;
            lemma_hmap_at(h, i);
        }
        if m.contains_key(k) {
            let i = choose|i: int| 0 <= i < h.len() && h[i].0 == k;
            lemma_hmap_at(h, i);
        }
    }
    assert(hmap(h).dom() =~= m.dom());
    assert forall|k: Seq<char>| hmap(h).dom().contains(k) implies #[trigger] hmap(h)[k]
        == m[k] by {
        lemma_hmap_dom(h, k);
        let i = choose|i: int| 0 <= i < h.len() && h[i].0 == k;
        lemma_hmap_at(h, i);
    }
    assert(hmap(h) =~= m);
}

/// An ordered header mapping. Order is kept for serialization, but the
/// meaning of a value of this type is the mapping [`Headers::as_map`].
#[derive(Debug)]
pub struct Headers {
    pairs: Vec<(String, String)>,
}

/// The view of a raw pair vector.
spec fn pairs_view(ps: Seq<(String, String)>) -> Seq<(Seq<char>, Seq<char>)> {
    Seq::new(ps.len(), |i: int| (ps[i].0@, ps[i].1@))
}

impl View for Headers {
    type V = Seq<(Seq<char>, Seq<char>)>;

    closed spec fn view(&self) -> Seq<(Seq<char>, Seq<char>)> {
        pairs_view(self.pairs@)
    }
}

impl Headers {
    #[verifier::type_invariant]
    spec fn wf(&self) -> bool {
        keys_unique(self@)
    }

    /// The mapping these headers denote.
    pub open spec fn as_map(&self) -> Map<Seq<char>, Seq<char>> {
        hmap(self@)
    }

    /// An empty header mapping.
    pub fn new() -> (h: Headers)
        ensures
            h@ == Seq::<(Seq<char>, Seq<char>)>::empty(),
            h.as_map() == Map::<Seq<char>, Seq<char>>::empty(),
    {
        let h = Headers { pairs: Vec::new() };
        proof {
            assert(h@ =~= Seq::<(Seq<char>, Seq<char>)>::empty());
        }
        h
    }

    /// How many headers there are.
    pub fn len(&self) -> (n: usize)
        ensures
            n == self@.len(),
    {
        self.pairs.len()
    }

    /// The name of the header at position `i`.
    pub fn key_at(&self, i: usize) -> (r: &String)
        requires
            i < self@.len(),
        ensures
            r@ == self@[i as int].0,
    {
        &self.pairs[i].0
    }

    /// The value of the header at position `i`.
    pub fn val_at(&self, i: usize) -> (r: &String)
        requires
            i < self@.len(),
        ensures
            r@ == self@[i as int].1,
    {
        &self.pairs[i].1
    }

    /// Sets `name` to `value`, overwriting in place if present and
    /// appending otherwise.
    pub fn insert(&mut self, name: &str, value: &str)
        ensures
            final(self)@ == assoc_insert(old(self)@, name@, value@),
            final(self).as_map() == old(self).as_map().insert(name@, value@),
    {
        proof {
            use_type_invariant(&*self);
        }
        let ghost h0 = self@;
        let mut pairs: Vec<(String, String)> = Vec::new();
        std::mem::swap(&mut pairs, &mut self.pairs);
        proof {
            assert(keys_unique(self@)) by {
                assert(self@ =~= Seq::<(Seq<char>, Seq<char>)>::empty());
            }
        }
        let n = pairs.len();
        let mut i: usize = 0;
        while i < n
            invariant
                0 <= i <= n,
                n == pairs@.len(),
                pairs_view(pairs@) == h0,
                h0 == old(self)@,
                keys_unique(h0),
                forall|j: int| 0 <= j < i ==> h0[j].0 != name@,
            decreases n - i,
        {
            if str_eq(pairs[i].0.as_str(), name) {
                proof {
                    lemma_assoc_insert_hmap(h0, name@, value@);
                    lemma_assoc_insert_found(h0, name@, value@, i as int);
                }
                let ghost p0 = pairs@;
                pairs.remove(i);
                pairs.insert(i, (name.to_owned(), value.to_owned()));
                proof {
                    let target = h0.update(i as int, (name@, value@));
                    assert(pairs@ =~= p0.update(i as int, pairs@[i as int]));
                    assert forall|j: int| 0 <= j < pairs@.len() implies pairs_view(pairs@)[j]
                        == target[j] by {
                        if j != i {
                            assert(pairs@[j] == p0[j]);
                        }
                    }
                    assert(pairs_view(pairs@) =~= target);
                }
                self.pairs = pairs;
                return;
            }
            i = i + 1;
        }
        proof {
            lemma_assoc_insert_hmap(h0, name@, value@);
            lemma_assoc_insert_absent(h0, name@, value@);
        }
        pairs.push((name.to_owned(), value.to_owned()));
        proof {
            assert(pairs_view(pairs@) =~= h0.push((name@, value@)));
        }
        self.pairs = pairs;
    }

    /// Looks `name` up in the mapping.
    pub fn get(&self, name: &str) -> (r: Option<&String>)
        ensures
            match r {
                Some(v) => self.as_map().contains_key(name@) && v@ == self.as_map()[name@],
                None => !self.as_map().contains_key(name@),
            },
    {
        proof {
            use_type_invariant(&*self);
        }
        let n = self.pairs.len();
        let mut i: usize = 0;
        while i < n
            invariant
                0 <= i <= n,
                n == self@.len(),
                keys_unique(self@),
                forall|j: int| 0 <= j < i ==> self@[j].0 != name@,
            decreases n - i,
        {
            if str_eq(self.pairs[i].0.as_str(), name) {
                proof {
                    lemma_hmap_at(self@, i as int);
                }
                return Some(&self.pairs[i].1);
            }
            i = i + 1;
        }
        proof {
            lemma_hmap_absent(self@, name@);
        }
        None
    }
}

impl PartialEq for Headers {
    /// Two header mappings are equal when they denote the same mapping,
    /// whatever order their pairs sit in.
    fn eq(&self, other: &Headers) -> (r: bool) {
        proof {
            use_type_invariant(&*self);
            use_type_invariant(&*other);
        }
        let n1 = self.pairs.len();
        let mut i: usize = 0;
        while i < n1
            invariant
                0 <= i <= n1,
                n1 == self@.len(),
                keys_unique(self@),
                keys_unique(other@),
                forall|j: int|
                    0 <= j < i ==> hmap(other@).contains_key(#[trigger] self@[j].0) && hmap(
                        other@,
                    )[self@[j].0] == self@[j].1,
            decreases n1 - i,
        {
            proof {
                assert(self@[i as int] == (self.pairs@[i as int].0@, self.pairs@[i as int].1@));
                lemma_hmap_at(self@, i as int);
            }
            match other.get(self.pairs[i].0.as_str()) {
                None => {
                    return false;
                },
                Some(v2) => {
                    if !str_eq(v2.as_str(), self.pairs[i].1.as_str()) {
                        return false;
                    }
                },
            }
            i = i + 1;
        }
        let n2 = other.pairs.len();
        let mut j: usize = 0;
        while j < n2
            invariant
                0 <= j <= n2,
                n2 == other@.len(),
                keys_unique(self@),
                keys_unique(other@),
                forall|t: int|
                    0 <= t < self@.len() ==> hmap(other@).contains_key(#[trigger] self@[t].0)
                        && hmap(other@)[self@[t].0] == self@[t].1,
                forall|t: int| 0 <= t < j ==> hmap(self@).contains_key(#[trigger] other@[t].0),
            decreases n2 - j,
        {
            proof {
                assert(other@[j as int] == (other.pairs@[j as int].0@, other.pairs@[j as int].1@));
                lemma_hmap_at(other@, j as int);
            }
            match self.get(other.pairs[j].0.as_str()) {
                None => {
                    return false;
                },
                Some(_) => {},
            }
            j = j + 1;
        }
        proof {
            let m1 = hmap(self@);
            let m2 = hmap(other@);
            assert forall|k: Seq<char>| m1.dom().contains(k) == m2.dom().contains(k) by {
                lemma_hmap_dom(self@, k);
                lemma_hmap_dom(other@, k);
                if m1.contains_key(k) {
                    let t = choose|t: int| 0 <= t < self@.len() && self@[t].0 == k;
                    assert(m2.contains_key(self@[t].0));
                }
                if m2.contains_key(k) {
                    let t = choose|t: int| 0 <= t < other@.len() && other@[t].0 == k;
                    assert(m1.contains_key(other@[t].0));
                }
            }
            assert(m1.dom() =~= m2.dom());
            assert forall|k: Seq<char>| m1.dom().contains(k) implies #[trigger] m1[k] == m2[k] by {
                lemma_hmap_dom(self@, k);
                let t = choose|t: int| 0 <= t < self@.len() && self@[t].0 == k;
                lemma_hmap_at(self@, t);
            }
            assert(m1 =~= m2);
        }
        true
    }
}

impl vstd::std_specs::cmp::PartialEqSpecImpl for Headers {
    open spec fn obeys_eq_spec() -> bool {
        true
    }

    open spec fn eq_spec(&self, other: &Headers) -> bool {
        hmap(self@) == hmap(other@)
    }
}

} // verus!
