use vstd::prelude::*;

use crate::text::strings_view;

verus! {

/// `a` comes strictly before `b` in lexicographic order by code point (`char`'s order; the order
/// of `String`'s `Ord`, which compares the UTF-8 bytes and so orders code points
/// the same way).
pub open spec fn lex_lt(a: Seq<char>, b: Seq<char>) -> bool
    decreases a.len(),
{
    if b.len() == 0 {
        false
    } else if a.len() == 0 {
        true
    } else if a[0] < b[0] {
        true
    } else if a[0] == b[0] {
        lex_lt(a.drop_first(), b.drop_first())
    } else {
        false
    }
}

/// `s` is in strictly increasing order, so holds no element twice.
pub open spec fn strictly_sorted(s: Seq<Seq<char>>) -> bool {
    forall|i: int, j: int| 0 <= i < j < s.len() ==> lex_lt(#[trigger] s[i], #[trigger] s[j])
}

/// Nothing comes before itself.
pub proof fn lemma_lex_lt_irreflexive(a: Seq<char>)
    ensures
        !lex_lt(a, a),
    decreases a.len(),
{
    if a.len() > 0 {
        lemma_lex_lt_irreflexive(a.drop_first());
    }
}

/// The order is transitive.
pub proof fn lemma_lex_lt_transitive(a: Seq<char>, b: Seq<char>, c: Seq<char>)
    requires
        lex_lt(a, b),
        lex_lt(b, c),
    ensures
        lex_lt(a, c),
    decreases a.len(),
{
    if a.len() > 0 && b.len() > 0 && c.len() > 0 && a[0] == b[0] && b[0] == c[0] {
        lemma_lex_lt_transitive(a.drop_first(), b.drop_first(), c.drop_first());
    }
}

/// Of two different sequences, one comes before the other.
pub proof fn lemma_lex_lt_total(a: Seq<char>, b: Seq<char>)
    requires
        a != b,
    ensures
        lex_lt(a, b) || lex_lt(b, a),
    decreases a.len(),
{
    if a.len() > 0 && b.len() > 0 && a[0] == b[0] {
        if a.drop_first() == b.drop_first() {
            assert(a =~= seq![a[0]] + a.drop_first());
            assert(b =~= seq![b[0]] + b.drop_first());
        }
        lemma_lex_lt_total(a.drop_first(), b.drop_first());
    } else if a.len() == 0 && b.len() == 0 {
        assert(a =~= b);
    }
}

/// Whether `a` comes strictly before `b`.
pub fn lex_less(a: &[char], b: &[char]) -> (r: bool)
    ensures
        r == lex_lt(a@, b@),
{
    let mut i: usize = 0;
    assert(a@.subrange(0, a@.len() as int) =~= a@);
    assert(b@.subrange(0, b@.len() as int) =~= b@);
    while i < a.len() && i < b.len() && a[i] == b[i]
        invariant
            i <= a@.len(),
            i <= b@.len(),
            lex_lt(a@, b@) == lex_lt(a@.subrange(i as int, a@.len() as int), b@.subrange(
                i as int,
                b@.len() as int,
            )),
        decreases a@.len() - i,
    {
        proof {
            let sa = a@.subrange(i as int, a@.len() as int);
            let sb = b@.subrange(i as int, b@.len() as int);
            assert(sa.drop_first() =~= a@.subrange(i + 1, a@.len() as int));
            assert(sb.drop_first() =~= b@.subrange(i + 1, b@.len() as int));
        }
        i += 1;
    }
    if i == b.len() {
        false
    } else if i == a.len() {
        true
    } else {
        a[i] < b[i]
    }
}

/// A set of strings, kept in increasing order, as `BTreeSet<String>` keeps them.
pub struct StringSet {
    items: Vec<String>,
}

impl StringSet {
    /// The elements are kept in strictly increasing order.
    #[verifier::type_invariant]
    pub closed spec fn sorted(self) -> bool {
        strictly_sorted(strings_view(self.items@))
    }

    /// What `sorted` says.
    pub proof fn lemma_sorted(s: StringSet)
        requires
            s.sorted(),
        ensures
            strictly_sorted(s@),
    {
    }
}

impl View for StringSet {
    type V = Seq<Seq<char>>;

    /// The elements, in increasing order.
    closed spec fn view(&self) -> Seq<Seq<char>> {
        strings_view(self.items@)
    }
}

impl StringSet {
    /// The empty set.
    pub fn new() -> (r: Self)
        ensures
            r@ == Seq::<Seq<char>>::empty(),
    {
        let r = StringSet { items: Vec::new() };
        assert(r@ =~= Seq::<Seq<char>>::empty());
        r
    }

    /// The number of elements.
    pub fn len(&self) -> (n: usize)
        ensures
            n == self@.len(),
    {
        self.items.len()
    }

    /// The elements, in increasing order.
    pub fn items(&self) -> (r: &Vec<String>)
        ensures
            strings_view(r@) == self@,
            strictly_sorted(self@),
    {
        proof {
            use_type_invariant(self);
        }
        &self.items
    }

    /// Adds `s`, if no element has its text.
    pub fn insert(&mut self, s: String)
        ensures
            final(self)@.to_set() == old(self)@.to_set().insert(s@),
            strictly_sorted(final(self)@),
    {
        proof {
            use_type_invariant(&*self);
        }
        let ghost old_view = self@;
        let sc = crate::text::chars_of(s.as_str());
        let mut p: usize = 0;
        while p < self.items.len() && lex_less(crate::text::chars_of(self.items[p].as_str()).as_slice(), sc.as_slice())
            invariant
                self@ == old_view,
                strictly_sorted(old_view),
                sc@ == s@,
                p <= old_view.len(),
                forall|i: int| 0 <= i < p ==> lex_lt(old_view[i], s@),
            decreases old_view.len() - p,
        {
            p += 1;
        }
        if p < self.items.len() && self.items[p] == s {
            assert(old_view.to_set().insert(s@) =~= old_view.to_set()) by {
                assert(old_view[p as int] == s@);
            }
            return;
        }
        proof {
            assert forall|j: int| p <= j < old_view.len() implies lex_lt(s@, old_view[j]) by {
                lemma_lex_lt_total(s@, old_view[p as int]);
                if j > p {
                    lemma_lex_lt_transitive(s@, old_view[p as int], old_view[j]);
                }
            }
        }
        let mut items: Vec<String> = Vec::new();
        std::mem::swap(&mut items, &mut self.items);
        items.insert(p, s);
        let ghost nv = strings_view(items@);
        proof {
            assert(nv =~= old_view.subrange(0, p as int).push(s@) + old_view.subrange(
                p as int,
                old_view.len() as int,
            ));
            assert forall|i: int, j: int| 0 <= i < j < nv.len() implies lex_lt(
                #[trigger] nv[i],
                #[trigger] nv[j],
            ) by {
                if j < p {
                } else if j == p {
                } else if i < p {
                    lemma_lex_lt_transitive(nv[i], s@, nv[j]);
                } else if i == p {
                } else {
                }
            }
        }
        self.items = items;
        proof {
            assert(self@.to_set() =~= old_view.to_set().insert(s@)) by {
                assert forall|x: Seq<char>| #[trigger] self@.to_set().contains(x) implies old_view.to_set().insert(s@).contains(x) by {
                    let k = choose|k: int| 0 <= k < nv.len() && nv[k] == x;
                    if k < p {
                        assert(old_view[k] == x);
                    } else if k > p {
                        assert(old_view[k - 1] == x);
                    }
                }
                assert forall|x: Seq<char>| #[trigger] old_view.to_set().insert(s@).contains(x) implies self@.to_set().contains(x) by {
                    if x == s@ {
                        assert(nv[p as int] == x);
                    } else {
                        let k = choose|k: int| 0 <= k < old_view.len() && old_view[k] == x;
                        if k < p {
                            assert(nv[k] == x);
                        } else {
                            assert(nv[k + 1] == x);
                        }
                    }
                }
            }
        }
    }
}

} // verus!
