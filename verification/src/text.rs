//! Strings cut at a separator character, and joined again.

use vstd::prelude::*;

verus! {

/// The pieces that the separator cuts a string into, in order. A string
/// without the separator is its own single piece; the empty string has one
/// empty piece.
pub open spec fn pieces(s: Seq<char>, sep: char) -> Seq<Seq<char>>
    decreases s.len(),
{
    if s.len() == 0 {
        seq![Seq::<char>::empty()]
    } else {
        let init = pieces(s.drop_last(), sep);
        if s.last() == sep {
            init.push(Seq::<char>::empty())
        } else {
            init.drop_last().push(init.last().push(s.last()))
        }
    }
}

/// The pieces joined again, with one separator between neighbours.
pub open spec fn join_with(segs: Seq<Seq<char>>, sep: char) -> Seq<char>
    decreases segs.len(),
{
    if segs.len() == 0 {
        Seq::<char>::empty()
    } else if segs.len() == 1 {
        segs[0]
    } else {
        join_with(segs.drop_last(), sep).push(sep) + segs.last()
    }
}

/// The views of a list of strings.
pub open spec fn string_views(v: Seq<String>) -> Seq<Seq<char>> {
    Seq::new(v.len(), |i: int| v[i]@)
}

/// Every string has at least one piece.
pub proof fn lemma_pieces_nonempty(s: Seq<char>, sep: char)
    ensures
        pieces(s, sep).len() >= 1,
    decreases s.len(),
{
    if s.len() > 0 {
        lemma_pieces_nonempty(s.drop_last(), sep);
    }
}

/// A string without the separator is its own single piece.
pub proof fn lemma_pieces_without_separator(s: Seq<char>, sep: char)
    requires
        forall|i: int| 0 <= i < s.len() ==> s[i] != sep,
    ensures
        pieces(s, sep) == seq![s],
    decreases s.len(),
{
    if s.len() > 0 {
        lemma_pieces_without_separator(s.drop_last(), sep);
        assert(pieces(s.drop_last(), sep).drop_last() =~= Seq::<Seq<char>>::empty());
        assert(s.drop_last().push(s.last()) =~= s);
        assert(pieces(s, sep) =~= seq![s]);
    } else {
        assert(s =~= Seq::<char>::empty());
    }
}

/// Cutting a string at a separator and joining the pieces with it gives
/// the string back.
pub proof fn lemma_join_of_pieces(s: Seq<char>, sep: char)
    ensures
        join_with(pieces(s, sep), sep) == s,
    decreases s.len(),
{
    lemma_pieces_nonempty(s, sep);
    if s.len() == 0 {
        assert(s =~= Seq::<char>::empty());
    } else {
        let t = s.drop_last();
        let init = pieces(t, sep);
        lemma_pieces_nonempty(t, sep);
        lemma_join_of_pieces(t, sep);
        assert(t.push(s.last()) =~= s);
        if s.last() == sep {
            let all = init.push(Seq::<char>::empty());
            assert(all.drop_last() =~= init);
            assert(join_with(all, sep) =~= join_with(init, sep).push(sep));
        } else {
            let grown = init.last().push(s.last());
            let all = init.drop_last().push(grown);
            if init.len() == 1 {
                assert(join_with(init, sep) == init[0]);
                assert(join_with(all, sep) == grown);
            } else {
                assert(all.drop_last() =~= init.drop_last());
                assert(join_with(all, sep) == join_with(init.drop_last(), sep).push(sep) + grown);
                assert(join_with(init, sep) == join_with(init.drop_last(), sep).push(sep)
                    + init.last());
                assert(join_with(all, sep) =~= join_with(init, sep).push(s.last()));
            }
        }
    }
}

/// No piece holds the separator.
pub proof fn lemma_pieces_hold_no_separator(s: Seq<char>, sep: char)
    ensures
        forall|i: int, j: int|
            0 <= i < pieces(s, sep).len() && 0 <= j < pieces(s, sep)[i].len() ==> pieces(s, sep)[i][j]
                != sep,
    decreases s.len(),
{
    if s.len() > 0 {
        lemma_pieces_hold_no_separator(s.drop_last(), sep);
        lemma_pieces_nonempty(s.drop_last(), sep);
    }
}

/// Cuts a string at each occurrence of the separator.
pub fn split_on(s: &str, sep: char) -> (segs: Vec<String>)
    ensures
        string_views(segs@) == pieces(s@, sep),
{
    let n: usize = s.unicode_len();
    let mut segs: Vec<String> = Vec::new();
    let mut start: usize = 0;
    let mut i: usize = 0;
    proof {
        assert(s@.take(0) =~= Seq::<char>::empty());
        assert(s@.subrange(0, 0) =~= Seq::<char>::empty());
        assert(string_views(segs@).push(s@.subrange(0, 0)) =~= pieces(s@.take(0), sep));
    }
    while i < n
        invariant
            n == s@.len(),
            start <= i <= n,
            string_views(segs@).push(s@.subrange(start as int, i as int)) == pieces(s@.take(i as int), sep),
        decreases n - i,
    {
        let c: char = s.get_char(i);
        proof {
            let t = s@.take(i + 1);
            assert(t.drop_last() =~= s@.take(i as int));
            assert(t.last() == c);
            let init = pieces(s@.take(i as int), sep);
            assert(init.drop_last() =~= string_views(segs@));
            assert(init.last() == s@.subrange(start as int, i as int));
        }
        if c == sep {
            let piece: &str = s.substring_char(start, i);
            let ghost before = segs@;
            segs.push(String::from_str(piece));
            proof {
                assert(string_views(segs@) =~= string_views(before).push(
                    s@.subrange(start as int, i as int),
                ));
                assert(s@.subrange(i + 1, i + 1) =~= Seq::<char>::empty());
            }
            start = i + 1;
        } else {
            proof {
                assert(s@.subrange(start as int, i as int).push(c) =~= s@.subrange(
                    start as int,
                    i + 1,
                ));
            }
        }
        i = i + 1;
    }
    let piece: &str = s.substring_char(start, n);
    let ghost before = segs@;
    segs.push(String::from_str(piece));
    proof {
        assert(s@.take(n as int) =~= s@);
        assert(string_views(segs@) =~= string_views(before).push(
            s@.subrange(start as int, n as int),
        ));
    }
    segs
}

/// Whether the string is free of the separator.
pub open spec fn plain(s: Seq<char>, sep: char) -> bool {
    forall|i: int| 0 <= i < s.len() ==> s[i] != sep
}

/// Appending a string that is free of the separator lengthens the last
/// piece and leaves the others as they are.
pub proof fn lemma_pieces_append_plain(s: Seq<char>, tail: Seq<char>, sep: char)
    requires
        plain(tail, sep),
    ensures
        pieces(s + tail, sep) == pieces(s, sep).drop_last().push(pieces(s, sep).last() + tail),
    decreases tail.len(),
{
    lemma_pieces_nonempty(s, sep);
    let whole = pieces(s, sep);
    if tail.len() == 0 {
        assert(s + tail =~= s);
        assert(whole.last() + tail =~= whole.last());
        assert(whole.drop_last().push(whole.last()) =~= whole);
    } else {
        let t = tail.drop_last();
        lemma_pieces_append_plain(s, t, sep);
        assert((s + tail).drop_last() =~= s + t);
        assert((s + tail).last() == tail[tail.len() - 1]);
        let init = pieces(s + t, sep);
        assert(init.drop_last() =~= whole.drop_last());
        assert((whole.last() + t).push(tail.last()) =~= whole.last() + tail);
    }
}

/// Joining pieces that are free of the separator and cutting the result
/// gives the pieces back.
pub proof fn lemma_pieces_of_join(segs: Seq<Seq<char>>, sep: char)
    requires
        segs.len() >= 1,
        forall|i: int| 0 <= i < segs.len() ==> plain(#[trigger] segs[i], sep),
    ensures
        pieces(join_with(segs, sep), sep) == segs,
    decreases segs.len(),
{
    if segs.len() == 1 {
        assert(plain(segs[0], sep));
        lemma_pieces_without_separator(segs[0], sep);
        assert(segs =~= seq![segs[0]]);
    } else {
        let init = segs.drop_last();
        assert forall|i: int| 0 <= i < init.len() implies plain(#[trigger] init[i], sep) by {
            assert(init[i] == segs[i]);
        }
        lemma_pieces_of_join(init, sep);
        let joined = join_with(init, sep);
        assert(joined.push(sep).drop_last() =~= joined);
        assert(pieces(joined.push(sep), sep) == init.push(Seq::<char>::empty()));
        assert(plain(segs[segs.len() - 1], sep));
        lemma_pieces_append_plain(joined.push(sep), segs.last(), sep);
        assert(Seq::<char>::empty() + segs.last() =~= segs.last());
        assert(init.push(Seq::<char>::empty()).drop_last() =~= init);
        assert(init.push(segs.last()) =~= segs);
    }
}

} // verus!
