//! Key paths: a dot-separated string names a nested location in a JSON
//! document. Splitting on `.` yields the ordered segments; a literal dot
//! inside a key name cannot be expressed.

use vstd::prelude::*;

verus! {

/// Splitting a character sequence on `.`: the result always holds at least
/// one segment, and joining the segments with `.` gives the input back.
pub open spec fn split_dots(s: Seq<char>) -> Seq<Seq<char>>
    decreases s.len(),
{
    if s.len() == 0 {
        seq![Seq::<char>::empty()]
    } else if s[0] == '.' {
        seq![Seq::<char>::empty()] + split_dots(s.drop_first())
    } else {
        let rest = split_dots(s.drop_first());
        seq![seq![s[0]] + rest[0]] + rest.drop_first()
    }
}

/// A usable key path: at least one segment, and no segment empty.
pub open spec fn valid_key_path(segs: Seq<Seq<char>>) -> bool {
    segs.len() >= 1 && forall|i: int| 0 <= i < segs.len() ==> segs[i].len() > 0
}

/// Splitting never yields an empty sequence of segments.
pub proof fn lemma_split_dots_len(s: Seq<char>)
    ensures
        split_dots(s).len() >= 1,
    decreases s.len(),
{
    if s.len() == 0 {
    } else if s[0] == '.' {
        lemma_split_dots_len(s.drop_first());
    } else {
        lemma_split_dots_len(s.drop_first());
    }
}

/// A sequence without dots splits into itself as the only segment.
pub proof fn lemma_split_no_dot(s: Seq<char>)
    requires
        forall|j: int| 0 <= j < s.len() ==> s[j] != '.',
    ensures
        split_dots(s) == seq![s],
    decreases s.len(),
{
    if s.len() == 0 {
        assert(s =~= Seq::<char>::empty());
    } else {
        assert forall|j: int| 0 <= j < s.drop_first().len() implies s.drop_first()[j] != '.' by {
            assert(s.drop_first()[j] == s[j + 1]);
        }
        lemma_split_no_dot(s.drop_first());
        let rest = split_dots(s.drop_first());
        assert(rest[0] == s.drop_first());
        assert(seq![s[0]] + s.drop_first() =~= s);
        assert(split_dots(s) =~= seq![s]);
    }
}

/// Splitting at the first dot: everything before it is the first segment,
/// and the rest splits on its own.
pub proof fn lemma_split_first_dot(s: Seq<char>, i: int)
    requires
        0 <= i < s.len(),
        s[i] == '.',
        forall|j: int| 0 <= j < i ==> s[j] != '.',
    ensures
        split_dots(s) == seq![s.take(i)] + split_dots(s.skip(i + 1)),
    decreases s.len(),
{
    if i == 0 {
        assert(s.take(0) =~= Seq::<char>::empty());
        assert(s.skip(1) =~= s.drop_first());
    } else {
        assert forall|j: int| 0 <= j < i - 1 implies s.drop_first()[j] != '.' by {
            assert(s.drop_first()[j] == s[j + 1]);
        }
        assert(s.drop_first()[i - 1] == s[i]);
        lemma_split_first_dot(s.drop_first(), i - 1);
        let rest = split_dots(s.drop_first());
        lemma_split_dots_len(s.drop_first().skip(i));
        assert(rest[0] == s.drop_first().take(i - 1));
        assert(seq![s[0]] + s.drop_first().take(i - 1) =~= s.take(i));
        assert(s.drop_first().skip(i) =~= s.skip(i + 1));
        assert(rest.drop_first() =~= split_dots(s.skip(i + 1)));
        assert(split_dots(s) =~= seq![s.take(i)] + split_dots(s.skip(i + 1)));
    }
}

/// Split a key path into its segments, in order.
pub fn split_key_path(key_path: &str) -> (segs: Vec<String>)
    ensures
        segs.deep_view() == split_dots(key_path@),
        segs@.len() >= 1,
{
    let n = key_path.unicode_len();
    let mut segs: Vec<String> = Vec::new();
    let mut start: usize = 0;
    let mut i: usize = 0;
    proof {
        assert(key_path@.skip(0) =~= key_path@);
        assert(segs.deep_view() =~= Seq::<Seq<char>>::empty());
    }
    while i < n
        invariant
            n == key_path@.len(),
            start <= i <= n,
            forall|j: int| start <= j < i ==> key_path@[j] != '.',
            split_dots(key_path@) == segs.deep_view() + split_dots(
                key_path@.skip(start as int),
            ),
        decreases n - i,
    {
        if key_path.get_char(i) == '.' {
            let piece = key_path.substring_char(start, i).to_owned();
            proof {
                let tail = key_path@.skip(start as int);
                assert forall|j: int| 0 <= j < i - start implies tail[j] != '.' by {
                    assert(tail[j] == key_path@[start + j]);
                }
                assert(tail[i - start] == key_path@[i as int]);
                lemma_split_first_dot(tail, i - start);
                assert(tail.take(i - start) =~= piece@);
                assert(tail.skip(i - start + 1) =~= key_path@.skip(i + 1));
                assert((segs.deep_view() + seq![piece@]) + split_dots(key_path@.skip(i + 1))
                    =~= segs.deep_view() + split_dots(key_path@.skip(start as int)));
            }
            let ghost old_segs = segs.deep_view();
            segs.push(piece);
            proof {
                assert(segs.deep_view() =~= old_segs + seq![piece@]);
            }
            start = i + 1;
        }
        i += 1;
    }
    let piece = key_path.substring_char(start, n).to_owned();
    proof {
        let tail = key_path@.skip(start as int);
        assert forall|j: int| 0 <= j < tail.len() implies tail[j] != '.' by {
            assert(tail[j] == key_path@[start + j]);
        }
        lemma_split_no_dot(tail);
        assert(piece@ =~= tail);
    }
    let ghost old_segs = segs.deep_view();
    segs.push(piece);
    proof {
        assert(segs.deep_view() =~= old_segs + seq![piece@]);
        assert(segs.deep_view() =~= split_dots(key_path@));
    }
    segs
}

} // verus!
