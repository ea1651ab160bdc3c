//! Facts about sequences.

use vstd::prelude::*;

verus! {

/// What a list with one more element holds.
pub proof fn lemma_push_contains<T>(s: Seq<T>, v: T, x: T)
    ensures
        s.push(v).contains(x) <==> s.contains(x) || x == v,
{
    let now = s.push(v);
    if s.contains(x) {
        let i = choose|i: int| 0 <= i < s.len() && s[i] == x;
        assert(now[i] == x);
    }
    if now.contains(x) {
        let i = choose|i: int| 0 <= i < now.len() && now[i] == x;
        if i < s.len() {
            assert(s[i] == x);
        }
    }
    assert(now[s.len() as int] == v);
}

/// What a filtered list holds.
pub proof fn lemma_filter<T>(s: Seq<T>, keep: spec_fn(T) -> bool)
    ensures
        forall|x: T| #[trigger] s.filter(keep).contains(x) <==> s.contains(x) && keep(x),
        s.no_duplicates() ==> s.filter(keep).no_duplicates(),
    decreases s.len(),
{
    reveal(Seq::filter);
    if s.len() > 0 {
        let rest = s.drop_last();
        let last = s.last();
        lemma_filter(rest, keep);
        let before = rest.filter(keep);
        let now = s.filter(keep);
        assert(s =~= rest.push(last));
        assert forall|x: T| #[trigger] now.contains(x) <==> s.contains(x) && keep(x) by {
            assert(before.contains(x) <==> rest.contains(x) && keep(x));
            lemma_push_contains(before, last, x);
            lemma_push_contains(rest, last, x);
        }
        if s.no_duplicates() {
            assert(rest.no_duplicates());
            if rest.contains(last) {
                let i = choose|i: int| 0 <= i < rest.len() && rest[i] == last;
                assert(s[i] == s[s.len() - 1]);
            }
            assert(!before.contains(last));
            assert forall|i: int, j: int|
                0 <= i < now.len() && 0 <= j < now.len() && i != j implies now[i] != now[j] by {
                if i < before.len() {
                    assert(before.contains(before[i]));
                }
                if j < before.len() {
                    assert(before.contains(before[j]));
                }
            }
        }
    }
}

} // verus!
