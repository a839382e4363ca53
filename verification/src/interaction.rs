//! Map-view interaction helpers that work on plain values.

use vstd::prelude::*;

use crate::text::str_eq;

verus! {

/// The view of an (attribution text, optional link) pair.
pub open spec fn credit_view(c: (String, Option<String>)) -> (Seq<char>, Option<Seq<char>>) {
    (
        c.0@,
        match c.1 {
            Some(u) => Some(u@),
            None => None,
        },
    )
}

/// The views of a list of credits.
pub open spec fn credits_view(v: Seq<(String, Option<String>)>) -> Seq<(Seq<char>, Option<Seq<char>>)> {
    v.map_values(|c: (String, Option<String>)| credit_view(c))
}

/// Whether some credit of `s` has the text `t`.
pub open spec fn has_text(s: Seq<(Seq<char>, Option<Seq<char>>)>, t: Seq<char>) -> bool {
    exists|i: int| 0 <= i < s.len() && (#[trigger] s[i]).0 == t
}

/// The credits of `s` whose text did not occur earlier, in order.
pub open spec fn first_by_text(s: Seq<(Seq<char>, Option<Seq<char>>)>) -> Seq<(Seq<char>, Option<Seq<char>>)>
    decreases s.len(),
{
    if s.len() == 0 {
        Seq::empty()
    } else if has_text(s.drop_last(), s.last().0) {
        first_by_text(s.drop_last())
    } else {
        first_by_text(s.drop_last()).push(s.last())
    }
}

/// Deduplication drops no attribution: every text of the input is still
/// credited, and no other.
pub proof fn law_dedupe_keeps_every_text(s: Seq<(Seq<char>, Option<Seq<char>>)>, t: Seq<char>)
    ensures
        has_text(first_by_text(s), t) == has_text(s, t),
    decreases s.len(),
{
    if s.len() > 0 {
        let p = s.drop_last();
        law_dedupe_keeps_every_text(p, t);
        if has_text(s, t) && !has_text(p, t) {
            assert(s.last().0 == t) by {
                let i = choose|i: int| 0 <= i < s.len() && (#[trigger] s[i]).0 == t;
                if i < s.len() - 1 {
                    assert(p[i] == s[i]);
                }
            }
        }
        if has_text(p, t) {
            let i = choose|i: int| 0 <= i < p.len() && (#[trigger] p[i]).0 == t;
            assert(s[i] == p[i]);
        }
        let f = first_by_text(p);
        if !has_text(p, s.last().0) {
            if has_text(f, t) {
                let i = choose|i: int| 0 <= i < f.len() && (#[trigger] f[i]).0 == t;
                assert(f.push(s.last())[i] == f[i]);
            }
            if has_text(f.push(s.last()), t) && t != s.last().0 {
                let i = choose|i: int| 0 <= i < f.len() + 1 && (#[trigger] f.push(s.last())[i]).0 == t;
                assert(f.push(s.last())[i] == f[i]);
            }
            if t == s.last().0 {
                assert(f.push(s.last())[f.len() as int].0 == t);
            }
        }
    }
}

/// Deduplicates (attribution text, optional link URL) pairs by text,
/// keeping each text's first pair and the original order.
pub fn dedupe_attributions(items: Vec<(String, Option<String>)>) -> (r: Vec<(String, Option<String>)>)
    ensures
        credits_view(r@) == first_by_text(credits_view(items@)),
{
    let ghost all = credits_view(items@);
    let mut credits: Vec<(String, Option<String>)> = Vec::new();
    for item in it: items.into_iter()
        invariant
            all == credits_view(it.seq()),
            credits_view(credits@) == first_by_text(all.take(it.index() as int)),
    {
        let ghost k = it.index() as int;
        let ghost pre = all.take(k);
        assert(all.take(k + 1).drop_last() =~= pre);
        assert(credit_view(item) == all[k]);
        let mut seen = false;
        let mut j: usize = 0;
        while j < credits.len()
            invariant
                j <= credits@.len(),
                !seen ==> forall|m: int| 0 <= m < j ==> (#[trigger] credits@[m]).0@ != item.0@,
                seen ==> exists|m: int| 0 <= m < credits@.len() && (#[trigger] credits@[m]).0@ == item.0@,
            decreases credits.len() - j,
        {
            if str_eq(credits[j].0.as_str(), item.0.as_str()) {
                seen = true;
            }
            j = j + 1;
        }
        proof {
            law_dedupe_keeps_every_text(pre, item.0@);
            let cv = credits_view(credits@);
            if seen {
                let m = choose|m: int| 0 <= m < credits@.len() && (#[trigger] credits@[m]).0@ == item.0@;
                assert(cv[m].0 == item.0@);
            } else {
                assert forall|m: int| 0 <= m < cv.len() implies (#[trigger] cv[m]).0 != item.0@ by {
                    assert(cv[m] == credit_view(credits@[m]));
                }
            }
        }
        if !seen {
            let ghost before = credits_view(credits@);
            credits.push(item);
            assert(credits_view(credits@) =~= before.push(all[k]));
        }
    }
    assert(all.take(all.len() as int) =~= all);
    credits
}

/// Whether no two credits share a text.
pub open spec fn distinct_texts(s: Seq<(Seq<char>, Option<Seq<char>>)>) -> bool {
    forall|i: int, j: int| 0 <= i < j < s.len() ==> (#[trigger] s[i]).0 != (#[trigger] s[j]).0
}

/// After deduplication each text is credited once.
pub proof fn law_dedupe_texts_distinct(s: Seq<(Seq<char>, Option<Seq<char>>)>)
    ensures
        distinct_texts(first_by_text(s)),
    decreases s.len(),
{
    if s.len() > 0 {
        let p = s.drop_last();
        law_dedupe_texts_distinct(p);
        let f = first_by_text(p);
        if !has_text(p, s.last().0) {
            law_dedupe_keeps_every_text(p, s.last().0);
            let g = f.push(s.last());
            assert forall|i: int, j: int| 0 <= i < j < g.len() implies (#[trigger] g[i]).0 != (#[trigger] g[j]).0 by {
                if j == g.len() - 1 {
                    assert(g[i] == f[i]);
                    if g[i].0 == s.last().0 {
                        assert(has_text(f, s.last().0));
                    }
                } else {
                    assert(g[i] == f[i] && g[j] == f[j]);
                }
            }
        }
    }
}

/// Credits that already have distinct texts are left as they are.
pub proof fn lemma_dedupe_distinct_unchanged(s: Seq<(Seq<char>, Option<Seq<char>>)>)
    requires
        distinct_texts(s),
    ensures
        first_by_text(s) == s,
    decreases s.len(),
{
    if s.len() > 0 {
        let p = s.drop_last();
        assert(distinct_texts(p)) by {
            assert forall|i: int, j: int| 0 <= i < j < p.len() implies (#[trigger] p[i]).0 != (#[trigger] p[j]).0 by {
                assert(p[i] == s[i] && p[j] == s[j]);
            }
        }
        lemma_dedupe_distinct_unchanged(p);
        assert(!has_text(p, s.last().0)) by {
            if has_text(p, s.last().0) {
                let i = choose|i: int| 0 <= i < p.len() && (#[trigger] p[i]).0 == s.last().0;
                assert(p[i] == s[i]);
                assert(s[i].0 != s[s.len() - 1].0);
            }
        }
        assert(p.push(s.last()) =~= s);
    }
}

/// Deduplicating twice is deduplicating once.
pub proof fn law_dedupe_idempotent(s: Seq<(Seq<char>, Option<Seq<char>>)>)
    ensures
        first_by_text(first_by_text(s)) == first_by_text(s),
{
    law_dedupe_texts_distinct(s);
    lemma_dedupe_distinct_unchanged(first_by_text(s));
}

/// The positions in `s` of the credits `first_by_text` keeps.
pub open spec fn first_positions(s: Seq<(Seq<char>, Option<Seq<char>>)>) -> Seq<int>
    decreases s.len(),
{
    if s.len() == 0 {
        Seq::empty()
    } else if has_text(s.drop_last(), s.last().0) {
        first_positions(s.drop_last())
    } else {
        first_positions(s.drop_last()).push(s.len() - 1)
    }
}

/// Deduplication keeps first occurrences, in order: what it keeps is a
/// subsequence of the input (at increasing positions), and each kept
/// credit is the first with its text, so its link is that first
/// occurrence's link.
pub proof fn law_dedupe_keeps_first_occurrences(s: Seq<(Seq<char>, Option<Seq<char>>)>)
    ensures
        first_positions(s).len() == first_by_text(s).len(),
        forall|i: int, j: int| 0 <= i < j < first_positions(s).len() ==> #[trigger] first_positions(s)[i] < #[trigger] first_positions(s)[j],
        forall|i: int|
            0 <= i < first_positions(s).len() ==> 0 <= #[trigger] first_positions(s)[i] < s.len() && first_by_text(s)[i]
                == s[first_positions(s)[i]] && forall|j: int| 0 <= j < first_positions(s)[i] ==> (#[trigger] s[j]).0 != s[first_positions(s)[i]].0,
    decreases s.len(),
{
    if s.len() > 0 {
        let p = s.drop_last();
        law_dedupe_keeps_first_occurrences(p);
        let fp = first_positions(p);
        let fb = first_by_text(p);
        assert forall|i: int| 0 <= i < fp.len() implies s[fp[i]] == p[fp[i]] by {}
        if !has_text(p, s.last().0) {
            let n = s.len() - 1;
            assert(first_positions(s) == fp.push(n));
            assert(first_by_text(s) == fb.push(s.last()));
            assert forall|j: int| 0 <= j < n implies (#[trigger] s[j]).0 != s[n].0 by {
                assert(s[j] == p[j]);
                if s[j].0 == s[n].0 {
                    assert(p[j].0 == s.last().0);
                }
            }
            assert forall|i: int|
                0 <= i < first_positions(s).len() implies 0 <= #[trigger] first_positions(s)[i] < s.len() && first_by_text(s)[i]
                    == s[first_positions(s)[i]] && forall|j: int| 0 <= j < first_positions(s)[i] ==> (#[trigger] s[j]).0
                    != s[first_positions(s)[i]].0 by {
                if i < fp.len() {
                    assert(first_positions(s)[i] == fp[i]);
                    assert forall|j: int| 0 <= j < fp[i] implies (#[trigger] s[j]).0 != s[fp[i]].0 by {
                        assert(s[j] == p[j]);
                    }
                }
            }
        } else {
            assert forall|i: int|
                0 <= i < first_positions(s).len() implies 0 <= #[trigger] first_positions(s)[i] < s.len() && first_by_text(s)[i]
                    == s[first_positions(s)[i]] && forall|j: int| 0 <= j < first_positions(s)[i] ==> (#[trigger] s[j]).0
                    != s[first_positions(s)[i]].0 by {
                assert forall|j: int| 0 <= j < fp[i] implies (#[trigger] s[j]).0 != s[fp[i]].0 by {
                    assert(s[j] == p[j]);
                }
            }
        }
    }
}

} // verus!
