//! The laws the token collection obeys, stated over the model that the
//! operations' contracts use and proved once and for all.

use vstd::prelude::*;

use crate::token_list::keeps;
use crate::token_list::lemma_filter_all_kept;
use crate::token_list::lemma_filter_membership;
use crate::token_list::lemma_filter_singleton;
use crate::token_list::spec_add;
use crate::token_list::spec_remove;
use crate::token_list::spec_toggle;

verus! {

/// Law: a token just inserted is a member — after `add(t)`, `contains(t)`
/// reports true.
pub proof fn lemma_add_then_contains(s: Seq<Seq<char>>, t: Seq<char>)
    ensures
        spec_add(s, t).contains(t),
{
    if !s.contains(t) {
        assert(spec_add(s, t)[s.len() as int] == t);
    }
}

/// Law: a token just removed is no member — after `remove(t)`, `contains(t)`
/// reports false.
pub proof fn lemma_remove_then_absent(s: Seq<Seq<char>>, t: Seq<char>)
    ensures
        !spec_remove(s, t).contains(t),
{
    if spec_remove(s, t).contains(t) {
        lemma_filter_membership(s, keeps(t), t);
        assert(!keeps(t)(t));
    }
}

/// A toggle pair on a present token: the collection keeps exactly the same
/// members, though the toggled one has moved to the end.
proof fn lemma_toggle_twice_present(s: Seq<Seq<char>>, t: Seq<char>)
    requires
        s.contains(t),
    ensures
        spec_remove(s, t).push(t).to_set() == s.to_set(),
{
    let s1 = spec_remove(s, t);
    let s2 = s1.push(t);
    assert(s2[s1.len() as int] == t);
    assert forall|x: Seq<char>| s2.contains(x) implies s.contains(x) by {
        let j = choose|j: int| 0 <= j < s2.len() && s2[j] == x;
        if j < s1.len() {
            assert(s1[j] == x);
            lemma_filter_membership(s, keeps(t), x);
        }
    }
    assert forall|x: Seq<char>| s.contains(x) implies s2.contains(x) by {
        if x == t {
            assert(s2[s1.len() as int] == x);
        } else {
            let i = choose|i: int| 0 <= i < s.len() && s[i] == x;
            assert(keeps(t)(s[i]));
            s.lemma_filter_contains(keeps(t), i);
            let j = choose|j: int| 0 <= j < s1.len() && s1[j] == x;
            assert(s2[j] == x);
        }
    }
    assert(s2.to_set() =~= s.to_set());
}

/// A toggle pair on an absent token: the collection comes back unchanged.
proof fn lemma_toggle_twice_absent(s: Seq<Seq<char>>, t: Seq<char>)
    requires
        !s.contains(t),
    ensures
        spec_remove(s.push(t), t) == s,
{
    assert(s.push(t) =~= s + seq![t]);
    Seq::filter_distributes_over_add(s, seq![t], keeps(t));
    lemma_filter_singleton(t, keeps(t));
    assert forall|i: int| 0 <= i < s.len() implies keeps(t)(#[trigger] s[i]) by {
        assert(s[i] != t);
    }
    lemma_filter_all_kept(s, keeps(t));
    assert(s + Seq::<Seq<char>>::empty() =~= s);
}

/// Law: toggling the same token twice reports `true` then `false`, or
/// `false` then `true`, as the token starts absent or present; the
/// membership afterwards is what it was before the pair of calls, and when
/// the token started absent the collection itself is restored unchanged.
pub proof fn lemma_toggle_twice(s: Seq<Seq<char>>, t: Seq<char>)
    ensures
        spec_toggle(s, t).0 == !s.contains(t),
        spec_toggle(spec_toggle(s, t).1, t).0 == !spec_toggle(s, t).0,
        spec_toggle(spec_toggle(s, t).1, t).1.to_set() == s.to_set(),
        !s.contains(t) ==> spec_toggle(spec_toggle(s, t).1, t).1 == s,
{
    if s.contains(t) {
        lemma_remove_then_absent(s, t);
        lemma_toggle_twice_present(s, t);
    } else {
        let s1 = s.push(t);
        assert(s1[s.len() as int] == t);
        lemma_toggle_twice_absent(s, t);
    }
}

/// Law: forcing a token on is idempotent — one `toggle_force(t, true)` makes
/// `t` a member, and a second one changes nothing at all.
pub proof fn lemma_force_on_idempotent(s: Seq<Seq<char>>, t: Seq<char>)
    ensures
        spec_add(s, t).contains(t),
        spec_add(spec_add(s, t), t) == spec_add(s, t),
{
    lemma_add_then_contains(s, t);
}

/// Law: forcing a token off is idempotent — one `toggle_force(t, false)`
/// leaves `t` no member, and a second one changes nothing at all.
pub proof fn lemma_force_off_idempotent(s: Seq<Seq<char>>, t: Seq<char>)
    ensures
        !spec_remove(s, t).contains(t),
        spec_remove(spec_remove(s, t), t) == spec_remove(s, t),
{
    lemma_remove_then_absent(s, t);
    let s1 = spec_remove(s, t);
    assert forall|i: int| 0 <= i < s1.len() implies keeps(t)(#[trigger] s1[i]) by {
        s.lemma_filter_pred(keeps(t), i);
    }
    lemma_filter_all_kept(s1, keeps(t));
}

/// Law: the size a well-formed collection reports is the count of distinct
/// tokens present — the cardinality of the set of tokens that repeated
/// `contains` queries would affirm.
pub proof fn lemma_len_counts_distinct(s: Seq<Seq<char>>)
    requires
        s.no_duplicates(),
    ensures
        s.to_set() == Set::new(|t: Seq<char>| s.contains(t)),
        s.to_set().len() == s.len(),
{
    s.unique_seq_to_set();
}

} // verus!
