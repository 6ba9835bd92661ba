//! The header row under construction: a collection of distinct keys that is
//! either kept in the order in which keys were first inserted or kept
//! sorted.

use vstd::prelude::*;
use crate::text::{text_less, text_lt, lemma_text_lt_irreflexive, lemma_text_lt_total, lemma_text_lt_transitive};

verus! {

/// Every text of `s` comes strictly before every later one.
pub open spec fn strictly_sorted(s: Seq<Seq<char>>) -> bool {
    forall|i: int, j: int| 0 <= i < j < s.len() ==> text_lt(#[trigger] s[i], #[trigger] s[j])
}

/// The texts of a sequence of strings.
pub open spec fn texts(s: Seq<String>) -> Seq<Seq<char>> {
    s.map_values(|t: String| t@)
}

/// A collection of header names.
pub struct HeaderCollection {
    keep_order: bool,
    items: Vec<String>,
}

/// The mathematical value of a [`HeaderCollection`]: whether it keeps the
/// order of first insertion (else it keeps its headers sorted), and its
/// headers in their order.
pub struct HeaderCollectionView {
    pub ordered: bool,
    pub headers: Seq<Seq<char>>,
}

impl HeaderCollectionView {
    /// No header occurs twice, and a sorted collection is strictly sorted.
    pub open spec fn well_formed(self) -> bool {
        &&& self.headers.no_duplicates()
        &&& !self.ordered ==> strictly_sorted(self.headers)
    }
}

impl View for HeaderCollection {
    type V = HeaderCollectionView;

    closed spec fn view(&self) -> HeaderCollectionView {
        HeaderCollectionView { ordered: self.keep_order, headers: texts(self.items@) }
    }
}

/// A strictly sorted sequence has no duplicates.
pub proof fn lemma_strictly_sorted_no_duplicates(s: Seq<Seq<char>>)
    requires
        strictly_sorted(s),
    ensures
        s.no_duplicates(),
{
    assert forall|i: int, j: int| 0 <= i < s.len() && 0 <= j < s.len() && i != j implies s[i]
        != s[j] by {
        if i < j {
            assert(text_lt(s[i], s[j]));
        } else {
            assert(text_lt(s[j], s[i]));
        }
        lemma_text_lt_irreflexive(s[i]);
    }
}

/// Two strictly sorted sequences that hold the same texts are equal: a
/// sorted collection is fixed by the set of its headers.
pub proof fn lemma_sorted_unique(a: Seq<Seq<char>>, b: Seq<Seq<char>>)
    requires
        strictly_sorted(a),
        strictly_sorted(b),
        a.to_set() == b.to_set(),
    ensures
        a == b,
    decreases a.len(),
{
    if a.len() == 0 {
        if b.len() > 0 {
            assert(b.to_set().contains(b[0]));
        }
        assert(a =~= b);
    } else if b.len() == 0 {
        assert(a.to_set().contains(a[0]));
    } else {
        // The first elements are both the least element of the set.
        assert(a.to_set().contains(a[0]));
        assert(b.to_set().contains(b[0]));
        let i = choose|i: int| 0 <= i < b.len() && b[i] == a[0];
        let j = choose|j: int| 0 <= j < a.len() && a[j] == b[0];
        if i > 0 {
            assert(text_lt(b[0], b[i]));
            if j > 0 {
                assert(text_lt(a[0], a[j]));
                lemma_text_lt_total(a[0], b[0]);
            } else {
                lemma_text_lt_irreflexive(a[0]);
            }
        }
        assert(a[0] == b[0]);
        let a1 = a.drop_first();
        let b1 = b.drop_first();
        assert(a1.to_set() =~= b1.to_set()) by {
            lemma_strictly_sorted_no_duplicates(a);
            lemma_strictly_sorted_no_duplicates(b);
            assert forall|x: Seq<char>| a1.to_set().contains(x) implies b1.to_set().contains(x) by {
                let k = choose|k: int| 0 <= k < a1.len() && a1[k] == x;
                assert(a.to_set().contains(a[k + 1]));
                let l = choose|l: int| 0 <= l < b.len() && b[l] == x;
                if l == 0 {
                    assert(text_lt(a[0], a[k + 1]));
                    lemma_text_lt_irreflexive(a[0]);
                }
                assert(b1[l - 1] == x);
            }
            assert forall|x: Seq<char>| b1.to_set().contains(x) implies a1.to_set().contains(x) by {
                let k = choose|k: int| 0 <= k < b1.len() && b1[k] == x;
                assert(b.to_set().contains(b[k + 1]));
                let l = choose|l: int| 0 <= l < a.len() && a[l] == x;
                if l == 0 {
                    assert(text_lt(b[0], b[k + 1]));
                    lemma_text_lt_irreflexive(b[0]);
                }
                assert(a1[l - 1] == x);
            }
        }
        lemma_sorted_unique(a1, b1);
        assert(a =~= seq![a[0]] + a1);
        assert(b =~= seq![b[0]] + b1);
    }
}

impl HeaderCollection {
    /// The invariant of every collection: its value is well formed.
    #[verifier::type_invariant]
    pub open spec fn inv(self) -> bool {
        self@.well_formed()
    }

    /// An empty collection that keeps the order of first insertion when
    /// `keep_order` holds, and keeps its headers sorted otherwise.
    pub fn new(keep_order: bool) -> (c: HeaderCollection)
        ensures
            c@.ordered == keep_order,
            c@.headers == Seq::<Seq<char>>::empty(),
            c@.well_formed(),
    {
        let c = HeaderCollection { keep_order, items: Vec::new() };
        assert(c@.headers =~= Seq::<Seq<char>>::empty());
        c
    }

    /// Whether `key` is one of the headers.
    fn contains(&self, key: &String) -> (r: bool)
        ensures
            r == self@.headers.contains(key@),
    {
        let mut i: usize = 0;
        while i < self.items.len()
            invariant
                i <= self.items@.len(),
                forall|j: int| 0 <= j < i ==> self.items@[j]@ != key@,
            decreases self.items@.len() - i,
        {
            if self.items[i] == *key {
                assert(self@.headers[i as int] == key@);
                return true;
            }
            i = i + 1;
        }
        assert forall|j: int| 0 <= j < self@.headers.len() implies self@.headers[j] != key@ by {
            assert(self@.headers[j] == self.items@[j]@);
        }
        false
    }

    /// Adds `key` to the headers.  A collection that keeps the order of
    /// first insertion appends it unless it is already there; a sorted
    /// collection puts it in its place, so that it holds the headers it
    /// held and `key`, strictly sorted.
    pub fn insert(&mut self, key: String)
        ensures
            final(self)@.ordered == old(self)@.ordered,
            final(self)@.well_formed(),
            old(self)@.headers.contains(key@) ==> final(self)@ == old(self)@,
            !old(self)@.headers.contains(key@) ==> final(self)@.headers.len() == old(self)@.headers.len() + 1,
            old(self)@.ordered ==> final(self)@.headers == (if old(self)@.headers.contains(key@) {
                old(self)@.headers
            } else {
                old(self)@.headers.push(key@)
            }),
            !old(self)@.ordered ==> final(self)@.headers.to_set() == old(self)@.headers.to_set().insert(
                key@,
            ),
    {
        proof {
            use_type_invariant(&*self);
        }
        if self.contains(&key) {
            if !self.keep_order {
                assert(self@.headers.to_set() =~= self@.headers.to_set().insert(key@));
            }
            return ;
        }
        let ghost old_headers = self@.headers;
        let mut items: Vec<String> = Vec::new();
        std::mem::swap(&mut items, &mut self.items);
        if self.keep_order {
            items.push(key);
            proof {
                assert(texts(items@) =~= old_headers.push(key@));
            }
            self.items = items;
        } else {
            let mut i: usize = 0;
            while i < items.len() && text_less(items[i].as_str(), key.as_str())
                invariant
                    i <= items@.len(),
                    texts(items@) == old_headers,
                    forall|j: int| 0 <= j < i ==> text_lt(#[trigger] old_headers[j], key@),
                decreases items@.len() - i,
            {
                i = i + 1;
            }
            proof {
                assert(!old_headers.contains(key@));
                if i < old_headers.len() {
                    assert(old_headers[i as int] != key@);
                    lemma_text_lt_total(old_headers[i as int], key@);
                    assert(text_lt(key@, old_headers[i as int]));
                }
            }
            items.insert(i, key);
            proof {
                let h = texts(items@);
                assert(h =~= old_headers.insert(i as int, key@));
                assert forall|a: int, b: int| 0 <= a < b < h.len() implies text_lt(
                    #[trigger] h[a],
                    #[trigger] h[b],
                ) by {
                    if b < i {
                        assert(h[a] == old_headers[a] && h[b] == old_headers[b]);
                    } else if b == i {
                        assert(h[a] == old_headers[a]);
                    } else if a > i {
                        assert(h[a] == old_headers[a - 1] && h[b] == old_headers[b - 1]);
                    } else if a == i {
                        assert(h[b] == old_headers[b - 1]);
                        if b - 1 > i {
                            assert(text_lt(old_headers[i as int], old_headers[b - 1]));
                            lemma_text_lt_transitive(key@, old_headers[i as int], old_headers[b - 1]);
                        }
                    } else {
                        assert(h[a] == old_headers[a] && h[b] == old_headers[b - 1]);
                        assert(text_lt(old_headers[a], key@));
                        assert(text_lt(key@, h[b])) by {
                            if b - 1 > i {
                                assert(text_lt(old_headers[i as int], old_headers[b - 1]));
                                lemma_text_lt_transitive(key@, old_headers[i as int], old_headers[b - 1]);
                            }
                        }
                        lemma_text_lt_transitive(old_headers[a], key@, h[b]);
                    }
                }
                lemma_strictly_sorted_no_duplicates(h);
                assert(h.to_set() =~= old_headers.to_set().insert(key@)) by {
                    assert forall|x: Seq<char>| h.to_set().contains(x) implies old_headers.to_set().insert(key@).contains(x) by {
                        let k = choose|k: int| 0 <= k < h.len() && h[k] == x;
                        if k < i {
                            assert(old_headers[k] == x);
                        } else if k > i {
                            assert(old_headers[k - 1] == x);
                        }
                    }
                    assert forall|x: Seq<char>| old_headers.to_set().insert(key@).contains(x) implies h.to_set().contains(x) by {
                        if x == key@ {
                            assert(h[i as int] == x);
                        } else {
                            let k = choose|k: int| 0 <= k < old_headers.len() && old_headers[k] == x;
                            if k < i {
                                assert(h[k] == x);
                            } else {
                                assert(h[k + 1] == x);
                            }
                        }
                    }
                }
            }
            self.items = items;
        }
    }

    /// Whether there is no header.
    pub fn is_empty(&self) -> (r: bool)
        ensures
            r == (self@.headers.len() == 0),
    {
        self.items.len() == 0
    }

    /// The number of headers.
    pub fn len(&self) -> (n: usize)
        ensures
            n == self@.headers.len(),
    {
        self.items.len()
    }

    /// The headers, in their order.
    pub fn iter(&self) -> (headers: &[String])
        ensures
            texts(headers@) == self@.headers,
    {
        self.items.as_slice()
    }
}

} // verus!
