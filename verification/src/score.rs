//! The timeline: an ordered collection of events, kept ascending by
//! (start, identifier). Keying the order by the pair keeps the order
//! chronological while two simultaneous events can never overwrite one
//! another.

use vstd::multiset::Multiset;
use vstd::prelude::*;

use crate::event::ev_le;
use crate::event::ev_lt;
use crate::event::Event;
use crate::event::EventV;

verus! {

/// The ordered timeline of a session.
#[derive(Clone, Debug, PartialEq, Eq)]
pub struct Score {
    pub events: Vec<Event>,
}

/// The models of a sequence of events.
pub open spec fn evs(s: Seq<Event>) -> Seq<EventV> {
    s.map_values(|x: Event| x@)
}

impl View for Score {
    type V = Seq<EventV>;

    open spec fn view(&self) -> Seq<EventV> {
        evs(self.events@)
    }
}

impl Default for Score {
    /// A timeline with no events.
    fn default() -> (r: Self)
        ensures
            r@ =~= Seq::<EventV>::empty(),
    {
        Score { events: Vec::new() }
    }
}

/// Ascending by (start, identifier).
pub open spec fn sorted_by_key(s: Seq<EventV>) -> bool {
    forall|i: int, j: int| 0 <= i < j < s.len() ==> ev_le(#[trigger] s[i], #[trigger] s[j])
}

/// No two events share an identifier.
pub open spec fn uniq_ids(s: Seq<EventV>) -> bool {
    forall|i: int, j: int|
        0 <= i < s.len() && 0 <= j < s.len() && i != j ==> (#[trigger] s[i]).id != (
        #[trigger] s[j]).id
}

/// `e` inserted into `s` directly before the first element it does not
/// follow in the timeline order.
pub open spec fn insort(s: Seq<EventV>, e: EventV) -> Seq<EventV>
    decreases s.len(),
{
    if s.len() == 0 {
        seq![e]
    } else if ev_le(e, s[0]) {
        seq![e] + s
    } else {
        seq![s[0]] + insort(s.drop_first(), e)
    }
}

/// The elements of `s` inserted one by one, in order, into `acc`.
pub open spec fn resort_from(acc: Seq<EventV>, s: Seq<EventV>) -> Seq<EventV>
    decreases s.len(),
{
    if s.len() == 0 {
        acc
    } else {
        resort_from(insort(acc, s[0]), s.drop_first())
    }
}

/// The ascending reordering of `s`, built by inserting its elements in
/// turn into an initially empty timeline.
pub open spec fn resort(s: Seq<EventV>) -> Seq<EventV> {
    resort_from(Seq::empty(), s)
}

/// Inserting one element grows the length by one, adds exactly that
/// element to the contents, and keeps the timeline order.
pub proof fn lemma_insort_ensures(s: Seq<EventV>, e: EventV)
    ensures
        insort(s, e).len() == s.len() + 1,
        insort(s, e).to_multiset() == s.to_multiset().insert(e),
        sorted_by_key(s) ==> sorted_by_key(insort(s, e)),
    decreases s.len(),
{
    broadcast use vstd::seq_lib::group_seq_properties;
    broadcast use vstd::multiset::group_multiset_axioms;

    if s.len() == 0 {
        assert(seq![e] =~= Seq::<EventV>::empty().push(e));
        Seq::<EventV>::empty().to_multiset_ensures();
        assert(insort(s, e).to_multiset() =~= s.to_multiset().insert(e));
    } else if ev_le(e, s[0]) {
        let t = seq![e] + s;
        assert(t =~= s.insert(0, e));
        s.insert_ensures(0, e);
        assert(t.to_multiset() =~= s.to_multiset().insert(e));
        if sorted_by_key(s) {
            assert forall|i: int, j: int| 0 <= i < j < t.len() implies ev_le(t[i], t[j]) by {
                if i == 0 {
                    if j > 1 {
                        assert(ev_le(s[0], s[j - 1]));
                    }
                } else {
                    assert(ev_le(s[i - 1], s[j - 1]));
                }
            }
        }
    } else {
        let s1 = s.drop_first();
        lemma_insort_ensures(s1, e);
        let t = seq![s[0]] + insort(s1, e);
        assert(s =~= seq![s[0]] + s1);
        assert(s.remove(0) =~= s1);
        s.to_multiset_ensures();
        assert(s1.to_multiset() =~= s.to_multiset().remove(s[0]));
        assert(t.remove(0) =~= insort(s1, e));
        t.to_multiset_ensures();
        assert(t.to_multiset().remove(t[0]) =~= insort(s1, e).to_multiset());
        assert(s.to_multiset().contains(s[0]));
        assert(t.to_multiset().contains(t[0]));
        assert(t.to_multiset() =~= s.to_multiset().insert(e)) by {
            assert(t.to_multiset().remove(t[0]).insert(s[0]) =~= t.to_multiset());
            assert(s.to_multiset().remove(s[0]).insert(s[0]) =~= s.to_multiset());
        }
        if sorted_by_key(s) {
            assert(sorted_by_key(s1)) by {
                assert forall|i: int, j: int| 0 <= i < j < s1.len() implies ev_le(s1[i], s1[j]) by {
                    assert(ev_le(s[i + 1], s[j + 1]));
                }
            }
            assert(sorted_by_key(insort(s1, e)));
            insort(s1, e).to_multiset_ensures();
            s1.to_multiset_ensures();
            assert forall|i: int, j: int| 0 <= i < j < t.len() implies ev_le(t[i], t[j]) by {
                if i == 0 {
                    let x = insort(s1, e)[j - 1];
                    assert(insort(s1, e).contains(x));
                    assert(insort(s1, e).to_multiset().count(x) > 0);
                    if x == e {
                        assert(ev_lt(s[0], e));
                    } else {
                        assert(s1.to_multiset().count(x) > 0);
                        assert(s1.contains(x));
                        let k = choose|k: int| 0 <= k < s1.len() && s1[k] == x;
                        assert(ev_le(s[0], s[k + 1]));
                    }
                } else {
                    assert(ev_le(insort(s1, e)[i - 1], insort(s1, e)[j - 1]));
                }
            }
        }
    }
}

/// Reinserting a whole sequence keeps its contents and, starting from an
/// ordered accumulator, yields an ordered timeline.
pub proof fn lemma_resort_from_ensures(acc: Seq<EventV>, s: Seq<EventV>)
    ensures
        resort_from(acc, s).len() == acc.len() + s.len(),
        resort_from(acc, s).to_multiset() == acc.to_multiset().add(s.to_multiset()),
        sorted_by_key(acc) ==> sorted_by_key(resort_from(acc, s)),
    decreases s.len(),
{
    broadcast use vstd::multiset::group_multiset_axioms;

    if s.len() == 0 {
        s.to_multiset_ensures();
        assert(s.to_multiset() =~= Multiset::<EventV>::empty());
        assert(resort_from(acc, s).to_multiset() =~= acc.to_multiset().add(s.to_multiset()));
    } else {
        let s1 = s.drop_first();
        lemma_insort_ensures(acc, s[0]);
        lemma_resort_from_ensures(insort(acc, s[0]), s1);
        assert(s.remove(0) =~= s1);
        s.to_multiset_ensures();
        assert(s1.to_multiset() =~= s.to_multiset().remove(s[0]));
        assert(s.to_multiset().contains(s[0]));
        assert(resort_from(acc, s).to_multiset() =~= acc.to_multiset().add(s.to_multiset()));
    }
}

/// Reinserting an element after a batch is the same as inserting it into
/// the reinserted batch.
pub proof fn lemma_resort_from_push(acc: Seq<EventV>, s: Seq<EventV>, x: EventV)
    ensures
        resort_from(acc, s.push(x)) == insort(resort_from(acc, s), x),
    decreases s.len(),
{
    if s.len() == 0 {
        assert(s.push(x)[0] == x);
        assert(s.push(x).drop_first() =~= Seq::<EventV>::empty());
        assert(resort_from(acc, s.push(x)) == resort_from(
            insort(acc, x),
            s.push(x).drop_first(),
        ));
        assert(resort_from(insort(acc, x), s.push(x).drop_first()) == insort(acc, x));
        assert(resort_from(acc, s) == acc);
    } else {
        assert(s.push(x)[0] == s[0]);
        assert(s.push(x).drop_first() =~= s.drop_first().push(x));
        lemma_resort_from_push(insort(acc, s[0]), s.drop_first(), x);
        assert(resort_from(acc, s.push(x)) == resort_from(
            insort(acc, s[0]),
            s.drop_first().push(x),
        ));
        assert(resort_from(acc, s) == resort_from(insort(acc, s[0]), s.drop_first()));
    }
}

/// Where the scan of the insertion point stops, `insort` splices.
pub proof fn lemma_insort_splice(s: Seq<EventV>, e: EventV, i: int)
    requires
        0 <= i <= s.len(),
        forall|k: int| 0 <= k < i ==> ev_lt(#[trigger] s[k], e),
        i < s.len() ==> ev_le(e, s[i]),
    ensures
        insort(s, e) == s.take(i).push(e) + s.skip(i),
    decreases i,
{
    if i == 0 {
        if s.len() == 0 {
            assert(insort(s, e) =~= s.take(0).push(e) + s.skip(0));
        } else {
            assert(ev_le(e, s[0]));
            assert(seq![e] + s =~= s.take(0).push(e) + s.skip(0));
        }
    } else {
        assert(ev_lt(s[0], e));
        let s1 = s.drop_first();
        assert forall|k: int| 0 <= k < i - 1 implies ev_lt(#[trigger] s1[k], e) by {
            assert(ev_lt(s[k + 1], e));
        }
        lemma_insort_splice(s1, e, i - 1);
        assert(seq![s[0]] + (s1.take(i - 1).push(e) + s1.skip(i - 1)) =~= s.take(i).push(e)
            + s.skip(i));
    }
}

/// Identifier uniqueness carries over any reordering of the contents.
pub proof fn lemma_uniq_ids_permutation(s: Seq<EventV>, t: Seq<EventV>)
    requires
        t.to_multiset() == s.to_multiset(),
        uniq_ids(s),
    ensures
        uniq_ids(t),
{
    s.to_multiset_ensures();
    t.to_multiset_ensures();
    assert(s.no_duplicates());
    s.lemma_multiset_has_no_duplicates();
    assert forall|i: int, j: int|
        0 <= i < t.len() && 0 <= j < t.len() && i != j implies (#[trigger] t[i]).id != (
    #[trigger] t[j]).id by {
        if t[i] == t[j] {
            let u = t.remove(i);
            t.to_multiset_ensures();
            u.to_multiset_ensures();
            let j2: int = if j < i {
                j
            } else {
                j - 1
            };
            assert(u[j2] == t[j]);
            assert(u.contains(t[j]));
            assert(u.to_multiset().count(t[j]) > 0);
            assert(u.to_multiset() == t.to_multiset().remove(t[i]));
            assert(t.to_multiset().count(t[i]) >= 2);
            assert(s.to_multiset().contains(t[i]));
            assert(false);
        } else if t[i].id == t[j].id {
            assert(t.contains(t[i]));
            assert(t.contains(t[j]));
            assert(t.to_multiset().count(t[i]) > 0);
            assert(t.to_multiset().count(t[j]) > 0);
            assert(s.contains(t[i]));
            assert(s.contains(t[j]));
            let k = choose|k: int| 0 <= k < s.len() && s[k] == t[i];
            let l = choose|l: int| 0 <= l < s.len() && s[l] == t[j];
            assert(k != l);
            assert(s[k].id != s[l].id);
            assert(false);
        }
    }
}

/// Places `e` directly before the first element it does not follow in the
/// timeline order, keeping everything else in place.
#[verifier::loop_isolation(true)]
pub fn insert_sorted(v: &mut Vec<Event>, e: Event)
    ensures
        evs(final(v)@) == insort(evs(old(v)@), e@),
{
    let ghost s = evs(old(v)@);
    let mut i: usize = 0;
    while i < v.len()
        invariant
            0 <= i <= v.len(),
            v@ == old(v)@,
            s == evs(v@),
            forall|k: int| 0 <= k < i ==> ev_lt(#[trigger] s[k], e@),
        ensures
            0 <= i <= v.len(),
            v@ == old(v)@,
            forall|k: int| 0 <= k < i ==> ev_lt(#[trigger] s[k], e@),
            i < v.len() ==> ev_le(e@, s[i as int]),
        decreases v.len() - i,
    {
        if !v[i].key_lt(&e) {
            break ;
        }
        i = i + 1;
    }
    proof {
        lemma_insort_splice(s, e@, i as int);
    }
    v.insert(i, e);
    proof {
        assert(v@ == old(v)@.insert(i as int, e));
        assert(evs(v@) =~= s.take(i as int).push(e@) + s.skip(i as int));
    }
}

} // verus!
