//! A set of texts kept in order, each once.

use vstd::prelude::*;

use crate::text::{lemma_lex_irreflexive, lemma_lex_total, lemma_lex_transitive, lex_lt, same, text_lt};
use crate::types::{lemma_views_push, views};

verus! {

/// Strictly increasing, hence each text once.
pub open spec fn strictly_sorted(s: Seq<Seq<char>>) -> bool {
    forall|i: int, j: int| 0 <= i < j < s.len() ==> lex_lt(s[i], s[j])
}

pub struct TextSet {
    items: Vec<String>,
}

impl View for TextSet {
    type V = Seq<Seq<char>>;

    closed spec fn view(&self) -> Seq<Seq<char>> {
        views(self.items@)
    }
}

impl TextSet {
    pub open spec fn wf(&self) -> bool {
        strictly_sorted(self@)
    }

    /// The empty set.
    pub fn new() -> (r: TextSet)
        ensures
            r@ == Seq::<Seq<char>>::empty(),
            r.wf(),
    {
        let r = TextSet { items: Vec::new() };
        assert(r@ =~= Seq::<Seq<char>>::empty());
        r
    }

    /// The texts, in order.
    pub fn list(&self) -> (r: Vec<String>)
        ensures
            views(r@) == self@,
    {
        let mut out: Vec<String> = Vec::new();
        let mut k: usize = 0;
        while k < self.items.len()
            invariant
                k <= self.items@.len(),
                views(out@) == self@.take(k as int),
            decreases self.items@.len() - k,
        {
            let ghost o0 = out@;
            let d = self.items[k].clone();
            let ghost d0 = d;
            out.push(d);
            proof {
                lemma_views_push(o0, d0);
                assert(self@.take(k + 1) =~= self@.take(k as int).push(self@[k as int]));
            }
            k = k + 1;
        }
        assert(self@.take(k as int) =~= self@);
        out
    }

    /// Where `t` is, or where it would go.
    fn position(&self, t: &str) -> (r: (usize, bool))
        requires
            self.wf(),
        ensures
            r.0 <= self@.len(),
            forall|i: int| 0 <= i < r.0 ==> lex_lt(#[trigger] self@[i], t@),
            r.1 == (r.0 < self@.len() && self@[r.0 as int] == t@),
            !r.1 ==> forall|i: int| r.0 <= i < self@.len() ==> lex_lt(t@, #[trigger] self@[i]),
            r.1 == self@.contains(t@),
    {
        let mut k: usize = 0;
        while k < self.items.len() && text_lt(self.items[k].as_str(), t)
            invariant
                k <= self.items@.len(),
                self@.len() == self.items@.len(),
                forall|i: int| 0 <= i < k ==> lex_lt(#[trigger] self@[i], t@),
            decreases self.items@.len() - k,
        {
            k = k + 1;
        }
        let found = k < self.items.len() && same(self.items[k].as_str(), t);
        proof {
            if k < self@.len() && !found {
                lemma_lex_total(self@[k as int], t@);
                assert forall|i: int| k <= i < self@.len() implies lex_lt(t@, #[trigger] self@[i]) by {
                    if i > k {
                        lemma_lex_transitive(t@, self@[k as int], self@[i]);
                    }
                }
            }
            if found {
                assert(self@[k as int] == t@);
            } else {
                assert forall|i: int| 0 <= i < self@.len() implies self@[i] != t@ by {
                    if i < k {
                        lemma_lex_irreflexive(t@);
                    } else {
                        lemma_lex_irreflexive(t@);
                    }
                }
            }
        }
        (k, found)
    }

    /// Is `t` in the set?
    pub fn contains(&self, t: &str) -> (r: bool)
        requires
            self.wf(),
        ensures
            r == self@.contains(t@),
    {
        self.position(t).1
    }

    /// Put `t` in; answers whether it was new.
    pub fn add(&mut self, t: &str) -> (r: bool)
        requires
            old(self).wf(),
        ensures
            final(self).wf(),
            r == !old(self)@.contains(t@),
            forall|x: Seq<char>| #[trigger] final(self)@.contains(x) == (old(self)@.contains(x) || x == t@),
            !r ==> final(self)@ == old(self)@,
            r ==> final(self)@.len() == old(self)@.len() + 1,
    {
        let (k, found) = self.position(t);
        if found {
            return false;
        }
        let ghost s0 = self@;
        let d = t.to_owned();
        self.items.insert(k, d);
        proof {
            assert(self@ =~= s0.insert(k as int, t@));
            let s1 = self@;
            assert forall|i: int, j: int| 0 <= i < j < s1.len() implies lex_lt(s1[i], s1[j]) by {
                if j < k {
                    assert(s1[i] == s0[i] && s1[j] == s0[j]);
                } else if i < k && j == k {
                } else if i < k && j > k {
                    lemma_lex_transitive(s1[i], t@, s1[j]);
                } else if i == k {
                } else {
                    assert(s1[i] == s0[i - 1] && s1[j] == s0[j - 1]);
                }
            }
            assert forall|x: Seq<char>| #[trigger] s1.contains(x) == (s0.contains(x) || x == t@) by {
                if s0.contains(x) {
                    let i = choose|i: int| 0 <= i < s0.len() && s0[i] == x;
                    if i < k {
                        assert(s1[i] == x);
                    } else {
                        assert(s1[i + 1] == x);
                    }
                }
                if s1.contains(x) {
                    let i = choose|i: int| 0 <= i < s1.len() && s1[i] == x;
                    if i < k {
                        assert(s0[i] == x);
                    } else if i > k {
                        assert(s0[i - 1] == x);
                    }
                }
                if x == t@ {
                    assert(s1[k as int] == x);
                }
            }
        }
        true
    }

    /// Take `t` out; answers whether it was in.
    pub fn remove(&mut self, t: &str) -> (r: bool)
        requires
            old(self).wf(),
        ensures
            final(self).wf(),
            r == old(self)@.contains(t@),
            forall|x: Seq<char>| #[trigger] final(self)@.contains(x) == (old(self)@.contains(x) && x != t@),
            !r ==> final(self)@ == old(self)@,
    {
        let (k, found) = self.position(t);
        if !found {
            return false;
        }
        let ghost s0 = self@;
        let _ = self.items.remove(k);
        proof {
            assert(self@ =~= s0.remove(k as int));
            let s1 = self@;
            assert forall|i: int, j: int| 0 <= i < j < s1.len() implies lex_lt(s1[i], s1[j]) by {
                let i0 = if i < k { i } else { i + 1 };
                let j0 = if j < k { j } else { j + 1 };
                assert(s1[i] == s0[i0] && s1[j] == s0[j0]);
            }
            assert forall|x: Seq<char>| #[trigger] s1.contains(x) == (s0.contains(x) && x != t@) by {
                if s1.contains(x) {
                    let i = choose|i: int| 0 <= i < s1.len() && s1[i] == x;
                    let i0 = if i < k { i } else { i + 1 };
                    assert(s0[i0] == x);
                    if x == t@ {
                        assert(lex_lt(s0[if i0 < k { i0 } else { k as int }], s0[if i0 < k { k as int } else { i0 }]));
                        lemma_lex_irreflexive(t@);
                    }
                }
                if s0.contains(x) && x != t@ {
                    let i = choose|i: int| 0 <= i < s0.len() && s0[i] == x;
                    if i < k {
                        assert(s1[i] == x);
                    } else {
                        assert(i != k);
                        assert(s1[i - 1] == x);
                    }
                }
            }
        }
        true
    }
}

} // verus!
