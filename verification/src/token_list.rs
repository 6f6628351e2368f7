use vstd::prelude::*;

verus! {

/// Error reported when a request on the token collection cannot be carried
/// out, for instance because inserting one more token would push the count
/// past what `len` can report.
#[derive(Clone, Copy, Debug, PartialEq, Eq, Structural)]
pub struct DelegationFailure;

/// The ordered collection of unique tokens that backs a space-separated
/// string attribute. Its view is the sequence of tokens, each a `Seq<char>`,
/// in the order they were first inserted.
pub struct TokenList {
    tokens: Vec<String>,
}

/// The collection after a request to insert `t`: unchanged when `t` is
/// already present, else `t` appended at the end.
pub open spec fn spec_add(s: Seq<Seq<char>>, t: Seq<char>) -> Seq<Seq<char>> {
    if s.contains(t) {
        s
    } else {
        s.push(t)
    }
}

/// The predicate a token must meet to survive a removal of `t`: being some
/// other token.
pub open spec fn keeps(t: Seq<char>) -> spec_fn(Seq<char>) -> bool {
    |x: Seq<char>| x != t
}

/// The collection after a request to remove `t`: every occurrence of `t`
/// dropped, the order of the remaining tokens kept.
pub open spec fn spec_remove(s: Seq<Seq<char>>, t: Seq<char>) -> Seq<Seq<char>> {
    s.filter(keeps(t))
}

/// The outcome of a toggle request on `t`: the report (`true` exactly when
/// the token was inserted) paired with the collection afterwards.
pub open spec fn spec_toggle(s: Seq<Seq<char>>, t: Seq<char>) -> (bool, Seq<Seq<char>>) {
    if s.contains(t) {
        (false, spec_remove(s, t))
    } else {
        (true, s.push(t))
    }
}

/// Filtering an empty sequence leaves an empty sequence.
pub(crate) proof fn lemma_filter_empty<A>(p: spec_fn(A) -> bool)
    ensures
        Seq::<A>::empty().filter(p) == Seq::<A>::empty(),
{
    reveal_with_fuel(Seq::filter, 1);
}

/// Filtering a one-token sequence keeps it or empties it, as the predicate
/// decides.
pub(crate) proof fn lemma_filter_singleton<A>(x: A, p: spec_fn(A) -> bool)
    ensures
        p(x) ==> seq![x].filter(p) == seq![x],
        !p(x) ==> seq![x].filter(p) == Seq::<A>::empty(),
{
    reveal_with_fuel(Seq::filter, 1);
    let s = seq![x];
    assert(s.last() == x);
    assert(s.drop_last() =~= Seq::<A>::empty());
    lemma_filter_empty(p);
    if p(x) {
        assert(s.filter(p) =~= seq![x]);
    }
}

/// Whatever the filter keeps was in the sequence and meets the predicate.
pub(crate) proof fn lemma_filter_membership<A>(s: Seq<A>, p: spec_fn(A) -> bool, x: A)
    requires
        s.filter(p).contains(x),
    ensures
        s.contains(x),
        p(x),
    decreases s.len(),
{
    reveal(Seq::filter);
    if s.len() == 0 {
    } else {
        let d = s.drop_last();
        let f = s.filter(p);
        let j = choose|j: int| 0 <= j < f.len() && f[j] == x;
        if p(s.last()) && j == d.filter(p).len() {
            assert(x == s.last());
            assert(s[s.len() - 1] == x);
        } else {
            assert(d.filter(p)[j] == x);
            assert(d.filter(p).contains(x));
            lemma_filter_membership(d, p, x);
            let i = choose|i: int| 0 <= i < d.len() && d[i] == x;
            assert(s[i] == x);
        }
    }
}

/// A filter of a duplicate-free sequence is duplicate-free.
pub(crate) proof fn lemma_filter_no_duplicates<A>(s: Seq<A>, p: spec_fn(A) -> bool)
    requires
        s.no_duplicates(),
    ensures
        s.filter(p).no_duplicates(),
    decreases s.len(),
{
    reveal(Seq::filter);
    if s.len() == 0 {
    } else {
        let d = s.drop_last();
        assert(d.no_duplicates());
        lemma_filter_no_duplicates(d, p);
        let sub = d.filter(p);
        if p(s.last()) {
            if sub.contains(s.last()) {
                lemma_filter_membership(d, p, s.last());
                let i = choose|i: int| 0 <= i < d.len() && d[i] == s.last();
                assert(s[i] == s[s.len() - 1]);
            }
            let f = sub.push(s.last());
            assert forall|i: int, j: int|
                0 <= i < f.len() && 0 <= j < f.len() && i != j implies f[i] != f[j] by {
                if i == sub.len() {
                    assert(f[j] == sub[j]);
                } else if j == sub.len() {
                    assert(f[i] == sub[i]);
                }
            }
        }
    }
}

/// A filter whose predicate holds of every token changes nothing.
pub(crate) proof fn lemma_filter_all_kept<A>(s: Seq<A>, p: spec_fn(A) -> bool)
    requires
        forall|i: int| 0 <= i < s.len() ==> p(#[trigger] s[i]),
    ensures
        s.filter(p) == s,
    decreases s.len(),
{
    reveal(Seq::filter);
    if s.len() == 0 {
    } else {
        let d = s.drop_last();
        lemma_filter_all_kept(d, p);
        assert(p(s[s.len() - 1]));
        assert(d.push(s.last()) =~= s);
    }
}

impl View for TokenList {
    type V = Seq<Seq<char>>;

    closed spec fn view(&self) -> Seq<Seq<char>> {
        self.tokens.deep_view()
    }
}

impl TokenList {
    /// Well-formed: no token occurs twice, and the count fits the `u32`
    /// that `len` reports.
    pub open spec fn wf(&self) -> bool {
        self@.no_duplicates() && self@.len() <= u32::MAX
    }

    /// An empty token collection.
    pub fn new() -> (r: TokenList)
        ensures
            r.wf(),
            r@ == Seq::<Seq<char>>::empty(),
    {
        let r = TokenList { tokens: Vec::new() };
        proof {
            assert(r@ =~= Seq::<Seq<char>>::empty());
        }
        r
    }

    /// Reports whether `token` is currently present. A pure query: the
    /// collection is untouched.
    pub fn contains(&self, token: &str) -> (r: bool)
        ensures
            r == self@.contains(token@),
    {
        let needle: String = token.to_owned();
        let n = self.tokens.len();
        let mut i: usize = 0;
        while i < n
            invariant
                n == self.tokens@.len(),
                i <= n,
                needle@ == token@,
                forall|j: int| 0 <= j < i ==> self@[j] != token@,
            decreases n - i,
        {
            if self.tokens[i] == needle {
                proof {
                    assert(self@[i as int] == token@);
                }
                return true;
            }
            i += 1;
        }
        false
    }

    /// The number of tokens in the collection.
    pub fn len(&self) -> (r: u32)
        requires
            self.wf(),
        ensures
            r as nat == self@.len(),
    {
        self.tokens.len() as u32
    }

    /// Requests insertion of `token`. A no-op when the token is already
    /// present; otherwise the token is appended. The request is refused only
    /// when appending would push the count past what `len` can report.
    pub fn add(&mut self, token: &str) -> (r: Result<(), DelegationFailure>)
        requires
            old(self).wf(),
        ensures
            final(self).wf(),
            r is Ok <==> (old(self)@.contains(token@) || old(self)@.len() < u32::MAX),
            r is Ok ==> final(self)@ == spec_add(old(self)@, token@),
            r is Err ==> final(self)@ == old(self)@,
    {
        if self.contains(token) {
            Ok(())
        } else if self.tokens.len() < u32::MAX as usize {
            let fresh: String = token.to_owned();
            self.tokens.push(fresh);
            proof {
                assert(self@ =~= old(self)@.push(token@));
                assert forall|i: int, j: int|
                    0 <= i < self@.len() && 0 <= j < self@.len() && i != j implies self@[i]
                    != self@[j] by {
                    if i < old(self)@.len() && j < old(self)@.len() {
                        assert(old(self)@[i] == self@[i] && old(self)@[j] == self@[j]);
                    }
                }
            }
            Ok(())
        } else {
            Err(DelegationFailure)
        }
    }

    /// Requests removal of `token`. A no-op when the token is absent;
    /// otherwise the token leaves and the order of the others is kept. The
    /// request is always carried out.
    pub fn remove(&mut self, token: &str) -> (r: Result<(), DelegationFailure>)
        requires
            old(self).wf(),
        ensures
            final(self).wf(),
            r is Ok,
            final(self)@ == spec_remove(old(self)@, token@),
    {
        let needle: String = token.to_owned();
        let n = self.tokens.len();
        let mut kept: Vec<String> = Vec::new();
        let mut i: usize = 0;
        proof {
            lemma_filter_empty(keeps(token@));
            assert(kept.deep_view() =~= Seq::<Seq<char>>::empty());
            assert(old(self)@.subrange(0, 0) =~= Seq::<Seq<char>>::empty());
        }
        while i < n
            invariant
                self.tokens@ == old(self).tokens@,
                n == self.tokens@.len(),
                i <= n,
                needle@ == token@,
                kept.deep_view() == spec_remove(old(self)@.subrange(0, i as int), token@),
            decreases n - i,
        {
            let ghost kept0 = kept.deep_view();
            let ghost dv = old(self)@;
            let ghost x = dv[i as int];
            proof {
                assert(x == self.tokens@[i as int]@);
            }
            let keep_it = !(self.tokens[i] == needle);
            if keep_it {
                kept.push(self.tokens[i].clone());
                proof {
                    assert(kept.deep_view() =~= kept0.push(x));
                }
            }
            proof {
                let p = keeps(token@);
                let a = dv.subrange(0, i as int);
                let b = dv.subrange(0, i as int + 1);
                assert(b =~= a + seq![x]);
                Seq::filter_distributes_over_add(a, seq![x], p);
                lemma_filter_singleton(x, p);
                if keep_it {
                    assert(kept.deep_view() =~= a.filter(p) + seq![x]);
                } else {
                    assert(kept.deep_view() =~= a.filter(p) + Seq::<Seq<char>>::empty());
                }
            }
            i += 1;
        }
        proof {
            assert(old(self)@.subrange(0, n as int) =~= old(self)@);
        }
        self.tokens = kept;
        proof {
            lemma_filter_no_duplicates(old(self)@, keeps(token@));
            old(self)@.lemma_filter_len(keeps(token@));
        }
        Ok(())
    }

    /// Flips the membership of `token`: removes it and reports `false` when
    /// it is present, inserts it and reports `true` when it is absent. The
    /// request is refused only when the insertion itself would be.
    pub fn toggle(&mut self, token: &str) -> (r: Result<bool, DelegationFailure>)
        requires
            old(self).wf(),
        ensures
            final(self).wf(),
            r is Ok <==> (old(self)@.contains(token@) || old(self)@.len() < u32::MAX),
            r is Ok ==> r == Ok::<bool, DelegationFailure>(spec_toggle(old(self)@, token@).0)
                && final(self)@ == spec_toggle(old(self)@, token@).1,
            r is Err ==> final(self)@ == old(self)@,
    {
        if self.contains(token) {
            match self.remove(token) {
                Ok(()) => Ok(false),
                Err(e) => Err(e),
            }
        } else {
            match self.add(token) {
                Ok(()) => Ok(true),
                Err(e) => Err(e),
            }
        }
    }

    /// One-way toggle: with `force` true the token ends up present, with
    /// `force` false it ends up absent, in either case whether or not it was
    /// there before. The request is refused only when an insertion would be.
    pub fn toggle_force(&mut self, token: &str, force: bool) -> (r: Result<
        (),
        DelegationFailure,
    >)
        requires
            old(self).wf(),
        ensures
            final(self).wf(),
            r is Ok <==> (!force || old(self)@.contains(token@) || old(self)@.len() < u32::MAX),
            force && r is Ok ==> final(self)@ == spec_add(old(self)@, token@),
            !force ==> final(self)@ == spec_remove(old(self)@, token@),
            r is Err ==> final(self)@ == old(self)@,
    {
        if force {
            self.add(token)
        } else {
            self.remove(token)
        }
    }
}

} // verus!
