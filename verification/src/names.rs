//! Colon-delimited mapping names: their segments, their final segment and
//! their shortest qualified form among sibling names.

use crate::text::{
    join_with, lemma_pieces_nonempty, lemma_pieces_without_separator, pieces, split_on,
    string_views,
};
use vstd::prelude::*;

verus! {

/// The segments of a colon-delimited string, in order. A string without a
/// colon is its own single segment; the empty string has one empty segment.
pub open spec fn segments(s: Seq<char>) -> Seq<Seq<char>> {
    pieces(s, ':')
}

/// The final segment of a colon-delimited string.
pub open spec fn last_segment(s: Seq<char>) -> Seq<char> {
    segments(s).last()
}

/// All segments but the final one.
pub open spec fn prefix_segments(s: Seq<char>) -> Seq<Seq<char>> {
    segments(s).drop_last()
}

/// The segments joined again, with one colon between neighbours.
pub open spec fn join_segments(segs: Seq<Seq<char>>) -> Seq<char> {
    join_with(segs, ':')
}

/// Every name has at least one segment.
pub proof fn lemma_segments_nonempty(s: Seq<char>)
    ensures
        segments(s).len() >= 1,
{
    lemma_pieces_nonempty(s, ':');
}

/// A name without a colon is its own single segment.
pub proof fn lemma_segments_without_colon(s: Seq<char>)
    requires
        forall|i: int| 0 <= i < s.len() ==> s[i] != ':',
    ensures
        segments(s) == seq![s],
{
    lemma_pieces_without_separator(s, ':');
}

/// Whether `needle` threads through `haystack`: its items occur there in
/// order, other items allowed in between. The empty needle always does.
pub open spec fn is_subsequence(needle: Seq<Seq<char>>, haystack: Seq<Seq<char>>) -> bool
    decreases haystack.len(),
{
    if needle.len() == 0 {
        true
    } else if haystack.len() == 0 {
        false
    } else if haystack[0] == needle[0] {
        is_subsequence(needle.drop_first(), haystack.drop_first())
    } else {
        is_subsequence(needle, haystack.drop_first())
    }
}

/// Whether the first `needle_len` strings of `needle` thread through the
/// first `hay_len` strings of `haystack`.
pub fn threads_through(
    haystack: &Vec<String>,
    hay_len: usize,
    needle: &Vec<String>,
    needle_len: usize,
) -> (r: bool)
    requires
        hay_len <= haystack@.len(),
        needle_len <= needle@.len(),
    ensures
        r == is_subsequence(
            string_views(needle@).take(needle_len as int),
            string_views(haystack@).take(hay_len as int),
        ),
{
    let ghost nd = string_views(needle@).take(needle_len as int);
    let ghost hs = string_views(haystack@).take(hay_len as int);
    let mut i: usize = 0;
    let mut j: usize = 0;
    proof {
        assert(nd.skip(0) =~= nd);
        assert(hs.skip(0) =~= hs);
    }
    while i < hay_len && j < needle_len
        invariant
            i <= hay_len <= haystack@.len(),
            j <= needle_len <= needle@.len(),
            nd == string_views(needle@).take(needle_len as int),
            hs == string_views(haystack@).take(hay_len as int),
            is_subsequence(nd, hs) == is_subsequence(nd.skip(j as int), hs.skip(i as int)),
        decreases hay_len - i,
    {
        proof {
            assert(hs.skip(i as int).drop_first() =~= hs.skip(i + 1));
            assert(nd.skip(j as int).drop_first() =~= nd.skip(j + 1));
            assert(hs.skip(i as int)[0] == haystack@[i as int]@);
            assert(nd.skip(j as int)[0] == needle@[j as int]@);
        }
        if haystack[i] == needle[j] {
            j = j + 1;
        }
        i = i + 1;
    }
    j == needle_len
}

/// A colon-delimited qualified name of a mapping, such as `a:b:c`.
#[derive(Debug, Clone, PartialEq, Eq, PartialOrd, Ord)]
pub struct MappingName(pub String);

impl View for MappingName {
    type V = Seq<char>;

    open spec fn view(&self) -> Seq<char> {
        self.0@
    }
}

/// The views of a list of names.
pub open spec fn name_views(v: Seq<MappingName>) -> Seq<Seq<char>> {
    Seq::new(v.len(), |i: int| v[i]@)
}

/// A sibling collides with a name when it is another string with the same
/// final segment.
pub open spec fn collides(name: Seq<char>, other: Seq<char>) -> bool {
    other != name && last_segment(other) == last_segment(name)
}

/// Whether the first `k` prefix segments of `name` thread through the prefix
/// segments of `other`.
pub open spec fn threads(name: Seq<char>, other: Seq<char>, k: int) -> bool {
    is_subsequence(prefix_segments(name).take(k), prefix_segments(other))
}

/// A colliding sibling is resolved within `k` steps when some qualifier of
/// 1 to `k` leading prefix segments of `name` threads through its prefix.
pub open spec fn resolved_within(name: Seq<char>, other: Seq<char>, k: int) -> bool {
    exists|j: int| 1 <= j <= k && #[trigger] threads(name, other, j)
}

/// Whether `k` steps resolve every colliding sibling.
pub open spec fn disambiguates(name: Seq<char>, others: Seq<Seq<char>>, k: int) -> bool {
    forall|i: int|
        0 <= i < others.len() && collides(name, #[trigger] others[i]) ==> resolved_within(
            name,
            others[i],
            k,
        )
}

/// The least number of steps from `k` on that resolves every colliding
/// sibling, or the number of prefix segments where none below it does.
pub open spec fn qualifier_search(name: Seq<char>, others: Seq<Seq<char>>, k: int) -> int
    decreases prefix_segments(name).len() - k,
{
    if k >= prefix_segments(name).len() {
        prefix_segments(name).len() as int
    } else if disambiguates(name, others, k) {
        k
    } else {
        qualifier_search(name, others, k + 1)
    }
}

/// How many prefix segments the short form of `name` keeps.
pub open spec fn qualifier_len(name: Seq<char>, others: Seq<Seq<char>>) -> int {
    qualifier_search(name, others, 0)
}

/// The short form of `name` among `others`: its last `qualifier_len` prefix
/// segments and its final segment, joined with colons.
pub open spec fn minified(name: Seq<char>, others: Seq<Seq<char>>) -> Seq<char> {
    let segs = segments(name);
    join_segments(segs.skip(segs.len() - 1 - qualifier_len(name, others)))
}

impl MappingName {
    /// The final colon-delimited segment of the name.
    pub fn last(&self) -> (r: &str)
        ensures
            r@ == last_segment(self@),
    {
        let s: &str = self.0.as_str();
        let n: usize = s.unicode_len();
        let mut start: usize = 0;
        let mut i: usize = 0;
        proof {
            assert(s@.take(0) =~= Seq::<char>::empty());
            assert(s@.subrange(0, 0) =~= Seq::<char>::empty());
        }
        while i < n
            invariant
                n == s@.len(),
                start <= i <= n,
                s@.subrange(start as int, i as int) == last_segment(s@.take(i as int)),
            decreases n - i,
        {
            let c: char = s.get_char(i);
            proof {
                let t = s@.take(i + 1);
                assert(t.drop_last() =~= s@.take(i as int));
                assert(t.last() == c);
                lemma_segments_nonempty(s@.take(i as int));
                assert(s@.subrange(i + 1, i + 1) =~= Seq::<char>::empty());
                assert(s@.subrange(start as int, i as int).push(c) =~= s@.subrange(
                    start as int,
                    i + 1,
                ));
            }
            if c == ':' {
                start = i + 1;
            }
            i = i + 1;
        }
        proof {
            assert(s@.take(n as int) =~= s@);
        }
        s.substring_char(start, n)
    }

    /// The shortest qualified form of the name among its siblings: the final
    /// segment, preceded by as many of the name's own prefix segments as it
    /// takes to resolve every sibling that ends in the same final segment.
    /// The name itself, where it stands among the siblings, is not counted.
    pub fn minify(&self, others: &Vec<MappingName>) -> (out: String)
        ensures
            out@ == minified(self@, name_views(others@)),
    {
        let ghost name = self@;
        let ghost sibs = name_views(others@);
        let mine: Vec<String> = split_on(self.0.as_str(), ':');
        proof {
            lemma_segments_nonempty(name);
            assert(string_views(mine@).len() == mine@.len());
        }
        let n: usize = mine.len() - 1;
        let mut other_segs: Vec<Vec<String>> = Vec::new();
        let mut active: Vec<bool> = Vec::new();
        let mut any: bool = false;
        let mut i: usize = 0;
        while i < others.len()
            invariant
                i <= others@.len(),
                name == self@,
                sibs == name_views(others@),
                string_views(mine@) == segments(name),
                n + 1 == mine@.len(),
                other_segs@.len() == i,
                active@.len() == i,
                forall|x: int|
                    0 <= x < i ==> string_views(#[trigger] other_segs@[x]@) == segments(sibs[x]),
                forall|x: int| 0 <= x < i ==> #[trigger] active@[x] == collides(name, sibs[x]),
                any == exists|x: int| 0 <= x < i && #[trigger] active@[x],
            decreases others@.len() - i,
        {
            let segs: Vec<String> = split_on(others[i].0.as_str(), ':');
            proof {
                lemma_segments_nonempty(sibs[i as int]);
                assert(string_views(segs@).len() == segs@.len());
                assert(string_views(segs@).last() == segs@[segs@.len() - 1]@);
                assert(string_views(mine@).last() == mine@[n as int]@);
            }
            let hit: bool = !(others[i].0 == self.0) && segs[segs.len() - 1] == mine[n];
            let ghost seen = active@;
            other_segs.push(segs);
            active.push(hit);
            proof {
                if any {
                    let w = choose|x: int| 0 <= x < i && #[trigger] seen[x];
                    assert(active@[w]);
                }
                if hit {
                    assert(active@[i as int]);
                }
                assert(forall|x: int| 0 <= x < i ==> active@[x] == seen[x]);
            }
            if hit {
                any = true;
            }
            i = i + 1;
        }
        let mut k: usize = 0;
        proof {
            assert forall|x: int| 0 <= x < sibs.len() implies #[trigger] active@[x] == (collides(
                name,
                sibs[x],
            ) && !resolved_within(name, sibs[x], 0)) by {}
        }
        while any && k < n
            invariant
                k <= n,
                name == self@,
                sibs == name_views(others@),
                string_views(mine@) == segments(name),
                n + 1 == mine@.len(),
                other_segs@.len() == sibs.len(),
                active@.len() == sibs.len(),
                forall|x: int|
                    0 <= x < sibs.len() ==> string_views(#[trigger] other_segs@[x]@) == segments(
                        sibs[x],
                    ),
                forall|x: int|
                    0 <= x < sibs.len() ==> #[trigger] active@[x] == (collides(name, sibs[x])
                        && !resolved_within(name, sibs[x], k as int)),
                any == exists|x: int| 0 <= x < sibs.len() && #[trigger] active@[x],
                qualifier_len(name, sibs) == qualifier_search(name, sibs, k as int),
            decreases n - k,
        {
            proof {
                let w = choose|x: int| 0 <= x < sibs.len() && #[trigger] active@[x];
                assert(collides(name, sibs[w]) && !resolved_within(name, sibs[w], k as int));
                assert(!disambiguates(name, sibs, k as int));
                assert(prefix_segments(name).len() == n);
            }
            k = k + 1;
            any = false;
            let mut x: usize = 0;
            while x < active.len()
                invariant
                    1 <= k <= n,
                    x <= active@.len(),
                    name == self@,
                    sibs == name_views(others@),
                    string_views(mine@) == segments(name),
                    n + 1 == mine@.len(),
                    other_segs@.len() == sibs.len(),
                    active@.len() == sibs.len(),
                    forall|y: int|
                        0 <= y < sibs.len() ==> string_views(#[trigger] other_segs@[y]@)
                            == segments(sibs[y]),
                    forall|y: int|
                        0 <= y < x ==> #[trigger] active@[y] == (collides(name, sibs[y])
                            && !resolved_within(name, sibs[y], k as int)),
                    forall|y: int|
                        x <= y < sibs.len() ==> #[trigger] active@[y] == (collides(name, sibs[y])
                            && !resolved_within(name, sibs[y], k - 1)),
                    any == exists|y: int| 0 <= y < x && #[trigger] active@[y],
                decreases active@.len() - x,
            {
                let ghost seen = active@;
                let ghost was = any;
                if active[x] {
                    proof {
                        lemma_segments_nonempty(sibs[x as int]);
                        assert(string_views(other_segs@[x as int]@).len() == other_segs@[x as int]@.len());
                    }
                    let hay: &Vec<String> = &other_segs[x];
                    let gone: bool = threads_through(hay, hay.len() - 1, &mine, k);
                    proof {
                        assert(string_views(mine@).take(k as int) =~= prefix_segments(name).take(
                            k as int,
                        ));
                        assert(string_views(hay@).take(hay@.len() - 1) =~= prefix_segments(
                            sibs[x as int],
                        ));
                        assert(gone == threads(name, sibs[x as int], k as int));
                        lemma_resolved_step(name, sibs[x as int], k as int);
                    }
                    if gone {
                        active.set(x, false);
                    } else {
                        any = true;
                    }
                } else {
                    proof {
                        if resolved_within(name, sibs[x as int], k - 1) {
                            lemma_resolved_grows(name, sibs[x as int], k - 1, k as int);
                        }
                    }
                }
                proof {
                    assert(forall|y: int|
                        0 <= y < sibs.len() && y != x ==> active@[y] == seen[y]);
                    if was {
                        let w = choose|y: int| 0 <= y < x && #[trigger] seen[y];
                        assert(active@[w]);
                    }
                    if active@[x as int] {
                        assert(any);
                    }
                }
                x = x + 1;
            }
        }
        proof {
            assert(prefix_segments(name).len() == n);
            if k < n {
                assert forall|x: int|
                    0 <= x < sibs.len() && collides(name, #[trigger] sibs[x]) implies resolved_within(
                    name,
                    sibs[x],
                    k as int,
                ) by {
                    assert(!active@[x]);
                }
            }
            assert(qualifier_len(name, sibs) == k);
        }
        let start: usize = n - k;
        let mut out: String = String::new();
        let mut idx: usize = start;
        proof {
            assert(string_views(mine@).subrange(start as int, start as int) =~= Seq::<
                Seq<char>,
            >::empty());
        }
        let total: usize = mine.len();
        while idx < total
            invariant
                start <= idx <= total,
                total == n + 1,
                n + 1 == mine@.len(),
                out@ == join_segments(string_views(mine@).subrange(start as int, idx as int)),
            decreases total - idx,
        {
            proof {
                reveal_strlit(":");
                let upto = string_views(mine@).subrange(start as int, idx + 1);
                assert(upto.drop_last() =~= string_views(mine@).subrange(
                    start as int,
                    idx as int,
                ));
                assert(upto.last() == mine@[idx as int]@);
                assert(":"@ =~= seq![':']);
            }
            if idx > start {
                let ghost before = out@;
                out.append(":");
                proof {
                    assert(out@ =~= before.push(':'));
                }
            }
            out.append(mine[idx].as_str());
            idx = idx + 1;
        }
        proof {
            assert(string_views(mine@).subrange(start as int, n + 1) =~= segments(name).skip(
                segments(name).len() - 1 - qualifier_len(name, sibs),
            ));
        }
        out
    }
}

/// What `k` steps resolve, `k + 1` steps resolve too.
pub proof fn lemma_resolved_grows(name: Seq<char>, other: Seq<char>, k: int, m: int)
    requires
        k <= m,
        resolved_within(name, other, k),
    ensures
        resolved_within(name, other, m),
{
    let j = choose|j: int| 1 <= j <= k && #[trigger] threads(name, other, j);
    assert(1 <= j <= m && threads(name, other, j));
}

/// A sibling is resolved within `k` steps exactly when it is resolved
/// within `k - 1` steps or by the qualifier of `k` segments.
pub proof fn lemma_resolved_step(name: Seq<char>, other: Seq<char>, k: int)
    requires
        k >= 1,
    ensures
        resolved_within(name, other, k) == (resolved_within(name, other, k - 1) || threads(
            name,
            other,
            k,
        )),
{
    if resolved_within(name, other, k) {
        let j = choose|j: int| 1 <= j <= k && #[trigger] threads(name, other, j);
        if j < k {
            assert(1 <= j <= k - 1 && threads(name, other, j));
        }
    }
    if resolved_within(name, other, k - 1) {
        lemma_resolved_grows(name, other, k - 1, k);
    }
    if threads(name, other, k) {
        assert(1 <= k <= k && threads(name, other, k));
    }
}


/// The number of kept prefix segments lies between zero and the number of
/// prefix segments, no smaller number resolves every colliding sibling, and
/// unless the whole prefix is kept the number itself does.
pub proof fn lemma_qualifier_len_is_least(name: Seq<char>, others: Seq<Seq<char>>)
    ensures
        0 <= qualifier_len(name, others) <= prefix_segments(name).len(),
        forall|j: int|
            0 <= j < qualifier_len(name, others) ==> !#[trigger] disambiguates(name, others, j),
        qualifier_len(name, others) < prefix_segments(name).len() ==> disambiguates(
            name,
            others,
            qualifier_len(name, others),
        ),
{
    lemma_segments_nonempty(name);
    lemma_qualifier_search(name, others, 0);
}

/// The search from `k` on returns the first number from `k` up to the
/// number of prefix segments that resolves every colliding sibling.
pub proof fn lemma_qualifier_search(name: Seq<char>, others: Seq<Seq<char>>, k: int)
    requires
        0 <= k <= prefix_segments(name).len(),
    ensures
        k <= qualifier_search(name, others, k) <= prefix_segments(name).len(),
        forall|j: int|
            k <= j < qualifier_search(name, others, k) ==> !#[trigger] disambiguates(
                name,
                others,
                j,
            ),
        qualifier_search(name, others, k) < prefix_segments(name).len() ==> disambiguates(
            name,
            others,
            qualifier_search(name, others, k),
        ),
    decreases prefix_segments(name).len() - k,
{
    if k < prefix_segments(name).len() && !disambiguates(name, others, k) {
        lemma_qualifier_search(name, others, k + 1);
    }
}

/// A name that no sibling collides with is shortened to its final segment.
pub proof fn lemma_minified_without_collision(name: Seq<char>, others: Seq<Seq<char>>)
    requires
        forall|i: int| 0 <= i < others.len() ==> !collides(name, #[trigger] others[i]),
    ensures
        minified(name, others) == last_segment(name),
{
    lemma_segments_nonempty(name);
    assert(disambiguates(name, others, 0));
    assert(qualifier_len(name, others) == 0);
    let segs = segments(name);
    assert(segs.skip(segs.len() - 1) =~= seq![segs.last()]);
}

/// A name without a colon is shortened to itself, whatever its siblings.
pub proof fn lemma_minified_without_colon(name: Seq<char>, others: Seq<Seq<char>>)
    requires
        forall|i: int| 0 <= i < name.len() ==> name[i] != ':',
    ensures
        last_segment(name) == name,
        minified(name, others) == name,
{
    lemma_segments_without_colon(name);
    let segs = segments(name);
    assert(prefix_segments(name).len() == 0);
    assert(qualifier_len(name, others) == 0);
    assert(segs.skip(0) =~= segs);
}

/// The short form is a function of the name and of which strings stand among
/// the siblings: neither their order nor their repetition changes it.
pub proof fn lemma_minified_of_same_siblings(
    name: Seq<char>,
    others: Seq<Seq<char>>,
    again: Seq<Seq<char>>,
)
    requires
        forall|s: Seq<char>| others.contains(s) <==> again.contains(s),
    ensures
        minified(name, others) == minified(name, again),
{
    lemma_segments_nonempty(name);
    lemma_search_of_same_siblings(name, others, again, 0);
}

/// Two sibling lists that hold the same strings are resolved by the same
/// numbers of steps.
pub proof fn lemma_search_of_same_siblings(
    name: Seq<char>,
    others: Seq<Seq<char>>,
    again: Seq<Seq<char>>,
    k: int,
)
    requires
        forall|s: Seq<char>| others.contains(s) <==> again.contains(s),
    ensures
        disambiguates(name, others, k) == disambiguates(name, again, k),
        qualifier_search(name, others, k) == qualifier_search(name, again, k),
    decreases prefix_segments(name).len() - k,
{
    if disambiguates(name, others, k) {
        assert forall|i: int|
            0 <= i < again.len() && collides(name, #[trigger] again[i]) implies resolved_within(
            name,
            again[i],
            k,
        ) by {
            assert(again.contains(again[i]));
            let j = choose|j: int| 0 <= j < others.len() && others[j] == again[i];
            assert(collides(name, others[j]));
        }
    }
    if disambiguates(name, again, k) {
        assert forall|i: int|
            0 <= i < others.len() && collides(name, #[trigger] others[i]) implies resolved_within(
            name,
            others[i],
            k,
        ) by {
            assert(others.contains(others[i]));
            let j = choose|j: int| 0 <= j < again.len() && again[j] == others[i];
            assert(collides(name, again[j]));
        }
    }
    if k < prefix_segments(name).len() && !disambiguates(name, others, k) {
        lemma_search_of_same_siblings(name, others, again, k + 1);
    }
}

/// What threads through a list, so does each of its leading parts.
pub proof fn lemma_leading_part_threads(
    needle: Seq<Seq<char>>,
    haystack: Seq<Seq<char>>,
    j: int,
)
    requires
        0 <= j <= needle.len(),
        is_subsequence(needle, haystack),
    ensures
        is_subsequence(needle.take(j), haystack),
    decreases haystack.len(),
{
    if j > 0 {
        let part = needle.take(j);
        if haystack[0] == needle[0] {
            lemma_leading_part_threads(needle.drop_first(), haystack.drop_first(), j - 1);
            assert(part.drop_first() =~= needle.drop_first().take(j - 1));
        } else {
            lemma_leading_part_threads(needle, haystack.drop_first(), j);
        }
    }
}

/// A sibling is resolved within one or more steps exactly when the first
/// prefix segment of the name occurs in its prefix: a longer qualifier
/// threads through nothing that the first segment does not.
pub proof fn lemma_first_segment_decides(name: Seq<char>, other: Seq<char>, k: int)
    requires
        1 <= k <= prefix_segments(name).len(),
    ensures
        resolved_within(name, other, k) == threads(name, other, 1),
{
    if resolved_within(name, other, k) {
        let j = choose|j: int| 1 <= j <= k && #[trigger] threads(name, other, j);
        lemma_leading_part_threads(prefix_segments(name).take(j), prefix_segments(other), 1);
        assert(prefix_segments(name).take(j).take(1) =~= prefix_segments(name).take(1));
    }
    if threads(name, other, 1) {
        assert(1 <= 1 <= k && threads(name, other, 1));
    }
}

/// The short form keeps no prefix segment, one, or all of them: none where
/// nothing collides, one where the first prefix segment of the name occurs
/// in the prefix of every colliding sibling, and all otherwise.
pub proof fn lemma_qualifier_len_cases(name: Seq<char>, others: Seq<Seq<char>>)
    ensures
        qualifier_len(name, others) == if prefix_segments(name).len() == 0 || disambiguates(
            name,
            others,
            0,
        ) {
            0
        } else if disambiguates(name, others, 1) {
            1
        } else {
            prefix_segments(name).len() as int
        },
{
    let n = prefix_segments(name).len() as int;
    if n >= 1 && !disambiguates(name, others, 0) {
        assert(qualifier_len(name, others) == qualifier_search(name, others, 1));
        if disambiguates(name, others, 1) {
            assert(qualifier_search(name, others, 1) == 1);
        } else {
            lemma_search_stays_unresolved(name, others, 1);
        }
    }
}

/// Where one step does not resolve every colliding sibling, no number of
/// steps does, and the search ends with the whole prefix.
pub proof fn lemma_search_stays_unresolved(name: Seq<char>, others: Seq<Seq<char>>, k: int)
    requires
        1 <= k <= prefix_segments(name).len(),
        !disambiguates(name, others, 1),
    ensures
        qualifier_search(name, others, k) == prefix_segments(name).len(),
    decreases prefix_segments(name).len() - k,
{
    if k < prefix_segments(name).len() {
        let i = choose|i: int|
            0 <= i < others.len() && collides(name, #[trigger] others[i]) && !resolved_within(
                name,
                others[i],
                1,
            );
        lemma_first_segment_decides(name, others[i], 1);
        lemma_first_segment_decides(name, others[i], k);
        assert(!disambiguates(name, others, k));
        lemma_search_stays_unresolved(name, others, k + 1);
    }
}

} // verus!
