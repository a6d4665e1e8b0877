//! Sequences of characters: white space, trimming, splitting at a separator
//! and joining with one, as spec functions with the lemmas that the parser
//! and the round trip rest on.

use vstd::prelude::*;

verus! {

/// Whether `c` is white space: one of the code points that Unicode classes
/// as `White_Space`.
pub open spec fn is_whitespace(c: char) -> bool {
    let n = c as u32;
    ||| 0x09 <= n <= 0x0D
    ||| n == 0x20
    ||| n == 0x85
    ||| n == 0xA0
    ||| n == 0x1680
    ||| 0x2000 <= n <= 0x200A
    ||| n == 0x2028
    ||| n == 0x2029
    ||| n == 0x202F
    ||| n == 0x205F
    ||| n == 0x3000
}

/// Decides whether `c` is white space.
pub fn char_is_whitespace(c: char) -> (b: bool)
    ensures
        b == is_whitespace(c),
{
    let n: u32 = c as u32;
    (0x09 <= n && n <= 0x0D) || n == 0x20 || n == 0x85 || n == 0xA0 || n == 0x1680 || (0x2000 <= n
        && n <= 0x200A) || n == 0x2028 || n == 0x2029 || n == 0x202F || n == 0x205F || n == 0x3000
}

/// `s` without the white space it starts with.
pub open spec fn trim_start(s: Seq<char>) -> Seq<char>
    decreases s.len(),
{
    if s.len() > 0 && is_whitespace(s.first()) {
        trim_start(s.drop_first())
    } else {
        s
    }
}

/// `s` without the white space it ends with.
pub open spec fn trim_end(s: Seq<char>) -> Seq<char>
    decreases s.len(),
{
    if s.len() > 0 && is_whitespace(s.last()) {
        trim_end(s.drop_last())
    } else {
        s
    }
}

/// `s` without the white space at both of its ends.
pub open spec fn trim(s: Seq<char>) -> Seq<char> {
    trim_end(trim_start(s))
}

/// Each of `pieces`, trimmed.
pub open spec fn trim_all(pieces: Seq<Seq<char>>) -> Seq<Seq<char>> {
    pieces.map_values(|piece: Seq<char>| trim(piece))
}

/// A sequence that neither starts nor ends with white space.
pub open spec fn is_trimmed(s: Seq<char>) -> bool {
    s.len() > 0 ==> !is_whitespace(s.first()) && !is_whitespace(s.last())
}

/// The pieces of `s` between the occurrences of `sep`. There is always at
/// least one piece; `n` separators give `n + 1` pieces, some of which may be
/// empty. Reading one more character either opens a new piece or extends the
/// last one.
pub open spec fn split(s: Seq<char>, sep: char) -> Seq<Seq<char>>
    decreases s.len(),
{
    if s.len() == 0 {
        seq![Seq::empty()]
    } else {
        let before = split(s.drop_last(), sep);
        if s.last() == sep {
            before.push(Seq::empty())
        } else {
            before.drop_last().push(before.last().push(s.last()))
        }
    }
}

/// The pieces of `parts` in order, with `sep` between each two neighbours.
pub open spec fn join(parts: Seq<Seq<char>>, sep: char) -> Seq<char>
    decreases parts.len(),
{
    if parts.len() == 0 {
        Seq::empty()
    } else if parts.len() == 1 {
        parts[0]
    } else {
        join(parts.drop_last(), sep).push(sep) + parts.last()
    }
}

/// No piece of `parts` holds the character `c`.
pub open spec fn free_of(parts: Seq<Seq<char>>, c: char) -> bool {
    forall|i: int| 0 <= i < parts.len() ==> !(#[trigger] parts[i]).contains(c)
}

/// What `trim_start` keeps is the end of `s` from some position on; all
/// before that position is white space, and what is kept does not start with
/// white space.
pub proof fn lemma_trim_start(s: Seq<char>)
    ensures
        exists|k: int|
            0 <= k <= s.len() && #[trigger] s.skip(k) == trim_start(s) && (forall|i: int|
                0 <= i < k ==> is_whitespace(s[i])),
        trim_start(s).len() > 0 ==> !is_whitespace(trim_start(s).first()),
    decreases s.len(),
{
    if s.len() > 0 && is_whitespace(s.first()) {
        let t = s.drop_first();
        lemma_trim_start(t);
        let k = choose|k: int|
            0 <= k <= t.len() && #[trigger] t.skip(k) == trim_start(t) && (forall|i: int|
                0 <= i < k ==> is_whitespace(t[i]));
        assert(s.skip(k + 1) =~= t.skip(k));
        assert forall|i: int| 0 <= i < k + 1 implies is_whitespace(s[i]) by {
            if i > 0 {
                assert(s[i] == t[i - 1]);
            }
        }
    } else {
        assert(s.skip(0) =~= s);
    }
}

/// What `trim_end` keeps is the start of `s` up to some position; all from
/// that position on is white space, and what is kept does not end with white
/// space.
pub proof fn lemma_trim_end(s: Seq<char>)
    ensures
        exists|k: int|
            0 <= k <= s.len() && #[trigger] s.take(k) == trim_end(s) && (forall|i: int|
                k <= i < s.len() ==> is_whitespace(s[i])),
        trim_end(s).len() > 0 ==> !is_whitespace(trim_end(s).last()),
    decreases s.len(),
{
    if s.len() > 0 && is_whitespace(s.last()) {
        let t = s.drop_last();
        lemma_trim_end(t);
        let k = choose|k: int|
            0 <= k <= t.len() && #[trigger] t.take(k) == trim_end(t) && (forall|i: int|
                k <= i < t.len() ==> is_whitespace(t[i]));
        assert(s.take(k) =~= t.take(k));
        assert forall|i: int| k <= i < s.len() implies is_whitespace(s[i]) by {
            if i < t.len() {
                assert(s[i] == t[i]);
            }
        }
    } else {
        assert(s.take(s.len() as int) =~= s);
    }
}

/// Trimming cuts one contiguous stretch out of `s`: what it drops on either
/// side is white space, and what it keeps is trimmed.
pub proof fn lemma_trim(s: Seq<char>)
    ensures
        is_trimmed(trim(s)),
        exists|a: int, b: int|
            0 <= a <= b <= s.len() && #[trigger] s.subrange(a, b) == trim(s) && (forall|i: int|
                0 <= i < a || b <= i < s.len() ==> is_whitespace(s[i])),
{
    lemma_trim_start(s);
    let a = choose|k: int|
        0 <= k <= s.len() && #[trigger] s.skip(k) == trim_start(s) && (forall|i: int|
            0 <= i < k ==> is_whitespace(s[i]));
    let t = s.skip(a);
    lemma_trim_end(t);
    let k = choose|k: int|
        0 <= k <= t.len() && #[trigger] t.take(k) == trim_end(t) && (forall|i: int|
            k <= i < t.len() ==> is_whitespace(t[i]));
    let b = a + k;
    assert(s.subrange(a, b) =~= t.take(k));
    assert forall|i: int| 0 <= i < a || b <= i < s.len() implies is_whitespace(s[i]) by {
        if b <= i {
            assert(s[i] == t[i - a]);
        }
    }
    if trim(s).len() > 0 {
        assert(trim(s).first() == t.first());
    }
}

/// Trimming leaves a trimmed sequence as it is.
pub proof fn lemma_trim_of_trimmed(s: Seq<char>)
    requires
        is_trimmed(s),
    ensures
        trim(s) == s,
{
}

/// Trimming brings in no character that `s` did not hold.
pub proof fn lemma_trim_keeps_absent(s: Seq<char>, c: char)
    requires
        !s.contains(c),
    ensures
        !trim(s).contains(c),
{
    lemma_trim(s);
    let (a, b) = choose|a: int, b: int|
        0 <= a <= b <= s.len() && #[trigger] s.subrange(a, b) == trim(s) && (forall|i: int|
            0 <= i < a || b <= i < s.len() ==> is_whitespace(s[i]));
    if trim(s).contains(c) {
        let i = choose|i: int| 0 <= i < trim(s).len() && trim(s)[i] == c;
        assert(s[a + i] == c);
    }
}

/// Splitting gives at least one piece, no piece holds the separator, and the
/// pieces joined with the separator are the sequence that was split.
pub proof fn lemma_split(s: Seq<char>, sep: char)
    ensures
        split(s, sep).len() >= 1,
        free_of(split(s, sep), sep),
        join(split(s, sep), sep) == s,
    decreases s.len(),
{
    if s.len() == 0 {
        assert(join(split(s, sep), sep) =~= s);
    } else {
        let before = split(s.drop_last(), sep);
        lemma_split(s.drop_last(), sep);
        let now = split(s, sep);
        if s.last() == sep {
            assert(now.drop_last() =~= before);
            assert(join(now, sep) =~= join(before, sep).push(sep));
            assert(s =~= s.drop_last().push(sep));
        } else {
            let grown = before.last().push(s.last());
            assert forall|i: int| 0 <= i < now.len() implies !(#[trigger] now[i]).contains(sep) by {
                if i < now.len() - 1 {
                    assert(now[i] == before[i]);
                } else {
                    assert(now[i] == grown);
                    if grown.contains(sep) {
                        let k = choose|k: int| 0 <= k < grown.len() && grown[k] == sep;
                        assert(before.last()[k] == sep);
                    }
                }
            }
            assert(now.drop_last() =~= before.drop_last());
            if before.len() == 1 {
                assert(join(now, sep) =~= join(before, sep).push(s.last()));
            } else {
                assert(join(now, sep) =~= join(before, sep).push(s.last()));
            }
            assert(s =~= s.drop_last().push(s.last()));
        }
    }
}

/// Splitting brings in no character: one that `s` does not hold is in none
/// of its pieces.
pub proof fn lemma_split_keeps_absent(s: Seq<char>, sep: char, c: char)
    requires
        !s.contains(c),
    ensures
        free_of(split(s, sep), c),
    decreases s.len(),
{
    let now = split(s, sep);
    if s.len() == 0 {
        assert(!now[0].contains(c));
    } else {
        let shorter = s.drop_last();
        if shorter.contains(c) {
            let k = choose|k: int| 0 <= k < shorter.len() && shorter[k] == c;
            assert(s[k] == c);
        }
        lemma_split_keeps_absent(shorter, sep, c);
        let before = split(shorter, sep);
        lemma_split(shorter, sep);
        assert(s.last() != c) by {
            assert(s.contains(s.last()));
        }
        assert forall|i: int| 0 <= i < now.len() implies !(#[trigger] now[i]).contains(c) by {
            if i < now.len() - 1 {
                assert(now[i] == before[i]);
            } else if now[i].contains(c) {
                let k = choose|k: int| 0 <= k < now[i].len() && now[i][k] == c;
                if s.last() != sep {
                    assert(before.last()[k] == c);
                }
            }
        }
    }
}

/// What one more character does to the pieces: the separator opens a new,
/// empty piece, and any other character extends the last piece.
pub proof fn lemma_split_push(s: Seq<char>, c: char, sep: char)
    ensures
        c == sep ==> split(s.push(c), sep) == split(s, sep).push(Seq::empty()),
        c != sep ==> split(s.push(c), sep) == split(s, sep).drop_last().push(
            split(s, sep).last().push(c),
        ),
{
    assert(s.push(c).drop_last() =~= s);
}

/// Trimming each piece goes piece by piece.
pub proof fn lemma_trim_all_push(pieces: Seq<Seq<char>>, piece: Seq<char>)
    ensures
        trim_all(pieces.push(piece)) == trim_all(pieces).push(trim(piece)),
{
    assert(trim_all(pieces.push(piece)) =~= trim_all(pieces).push(trim(piece)));
}

/// Appending characters other than the separator opens no new piece: they
/// extend the last one.
pub proof fn lemma_split_append(s: Seq<char>, t: Seq<char>, sep: char)
    requires
        !t.contains(sep),
    ensures
        split(s + t, sep) == split(s, sep).drop_last().push(split(s, sep).last() + t),
    decreases t.len(),
{
    let pieces = split(s, sep);
    lemma_split(s, sep);
    if t.len() == 0 {
        assert(s + t =~= s);
        assert(pieces.last() + t =~= pieces.last());
        assert(pieces.drop_last().push(pieces.last()) =~= pieces);
    } else {
        let shorter = t.drop_last();
        if shorter.contains(sep) {
            let k = choose|k: int| 0 <= k < shorter.len() && shorter[k] == sep;
            assert(t[k] == sep);
        }
        assert(t.contains(t.last()));
        lemma_split_append(s, shorter, sep);
        assert((s + t).drop_last() =~= s + shorter);
        assert((pieces.last() + shorter).push(t.last()) =~= pieces.last() + t);
        assert(split(s + t, sep) =~= pieces.drop_last().push(pieces.last() + t));
    }
}

/// White space at the end of a sequence does not show in what trimming
/// keeps.
pub proof fn lemma_trim_drops_last_whitespace(s: Seq<char>, c: char)
    requires
        is_whitespace(c),
    ensures
        trim(s.push(c)) == trim(s),
        trim_start(s.push(c)) == if trim_start(s).len() == 0 {
            Seq::<char>::empty()
        } else {
            trim_start(s).push(c)
        },
    decreases s.len(),
{
    if s.len() == 0 {
        assert(s.push(c).drop_first() =~= s);
        assert(trim_start(s) =~= Seq::<char>::empty());
    } else if is_whitespace(s.first()) {
        assert(s.push(c).drop_first() =~= s.drop_first().push(c));
        lemma_trim_drops_last_whitespace(s.drop_first(), c);
    } else {
        assert(s.push(c).drop_last() =~= s);
    }
    if trim_start(s).len() > 0 {
        assert(trim_start(s).push(c).drop_last() =~= trim_start(s));
    }
}

/// Splitting undoes joining: pieces that hold no separator, joined and split
/// again, come back as they were.
pub proof fn lemma_split_of_join(parts: Seq<Seq<char>>, sep: char)
    requires
        parts.len() >= 1,
        free_of(parts, sep),
    ensures
        split(join(parts, sep), sep) == parts,
    decreases join(parts, sep).len(),
{
    let s = join(parts, sep);
    let last = parts.last();
    if last.len() == 0 {
        assert(last =~= Seq::<char>::empty());
        if parts.len() == 1 {
            assert(split(s, sep) =~= parts);
        } else {
            let rest = parts.drop_last();
            assert(s =~= join(rest, sep).push(sep));
            assert(s.drop_last() =~= join(rest, sep));
            assert forall|i: int| 0 <= i < rest.len() implies !(#[trigger] rest[i]).contains(
                sep,
            ) by {
                assert(rest[i] == parts[i]);
            }
            lemma_split_of_join(rest, sep);
            assert(split(s, sep) =~= parts);
        }
    } else {
        let shorter = parts.drop_last().push(last.drop_last());
        assert(shorter.drop_last() =~= parts.drop_last());
        assert(s.len() > 0 && s.last() == last.last());
        assert(last.contains(last.last()));
        assert(s.drop_last() =~= join(shorter, sep));
        assert forall|i: int| 0 <= i < shorter.len() implies !(#[trigger] shorter[i]).contains(
            sep,
        ) by {
            if i < shorter.len() - 1 {
                assert(shorter[i] == parts[i]);
            } else {
                if shorter[i].contains(sep) {
                    let k = choose|k: int| 0 <= k < shorter[i].len() && shorter[i][k] == sep;
                    assert(last[k] == sep);
                }
            }
        }
        lemma_split_of_join(shorter, sep);
        assert(last =~= last.drop_last().push(last.last()));
        assert(split(s, sep) =~= parts);
    }
}

/// Joining brings in no character but the separator: one that no piece
/// holds, and that is not the separator, is not in the joined sequence.
pub proof fn lemma_join_keeps_absent(parts: Seq<Seq<char>>, sep: char, c: char)
    requires
        free_of(parts, c),
        c != sep,
    ensures
        !join(parts, sep).contains(c),
    decreases parts.len(),
{
    let s = join(parts, sep);
    if parts.len() >= 2 {
        let rest = parts.drop_last();
        assert forall|i: int| 0 <= i < rest.len() implies !(#[trigger] rest[i]).contains(c) by {
            assert(rest[i] == parts[i]);
        }
        lemma_join_keeps_absent(rest, sep, c);
        if s.contains(c) {
            let k = choose|k: int| 0 <= k < s.len() && s[k] == c;
            let head = join(rest, sep);
            if k < head.len() {
                assert(head[k] == c);
            } else if k > head.len() {
                assert(parts.last()[k - head.len() - 1] == c);
            }
        }
    } else if parts.len() == 1 {
        assert(!parts[0].contains(c));
    } else {
        if s.contains(c) {
            let k = choose|k: int| 0 <= k < s.len() && s[k] == c;
        }
    }
}

} // verus!
