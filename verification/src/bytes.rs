//! Byte-sequence utilities: ASCII case folding, lexicographic comparison,
//! equality, suffix tests, splitting, joining, and substring search.

use vstd::prelude::*;

verus! {

/// ASCII lower-casing of one byte: `A`..`Z` map to `a`..`z`, all else unchanged.
pub open spec fn lower_byte(b: u8) -> u8 {
    if 65 <= b && b <= 90 {
        (b + 32) as u8
    } else {
        b
    }
}

/// ASCII lower-casing of a whole byte sequence.
pub open spec fn lower_seq(s: Seq<u8>) -> Seq<u8> {
    s.map_values(|b: u8| lower_byte(b))
}

/// Lower-case a byte string.
pub fn to_lower(v: &Vec<u8>) -> (r: Vec<u8>)
    ensures
        r@ == lower_seq(v@),
{
    let mut out: Vec<u8> = Vec::new();
    let mut i: usize = 0;
    while i < v.len()
        invariant
            i <= v.len(),
            out@.len() == i,
            forall|j: int| 0 <= j < i ==> out@[j] == lower_byte(v@[j]),
        decreases v.len() - i,
    {
        let b = v[i];
        let lb = if 65 <= b && b <= 90 {
            b + 32
        } else {
            b
        };
        out.push(lb);
        i = i + 1;
    }
    assert(out@ =~= lower_seq(v@));
    out
}

/// Case-insensitive lexicographic order on byte sequences is `seq_le` after
/// `lower_seq`; `seq_le` itself is plain lexicographic order.
pub open spec fn seq_le(a: Seq<u8>, b: Seq<u8>) -> bool
    decreases a.len(),
{
    if a.len() == 0 {
        true
    } else if b.len() == 0 {
        false
    } else if a[0] < b[0] {
        true
    } else if a[0] > b[0] {
        false
    } else {
        seq_le(a.drop_first(), b.drop_first())
    }
}

/// `seq_le` is total: any two byte sequences compare one way or the other.
pub proof fn lemma_seq_le_total(a: Seq<u8>, b: Seq<u8>)
    ensures
        seq_le(a, b) || seq_le(b, a),
    decreases a.len(),
{
    if a.len() == 0 {
    } else if b.len() == 0 {
    } else if a[0] == b[0] {
        lemma_seq_le_total(a.drop_first(), b.drop_first());
    }
}

/// `seq_le` is transitive.
pub proof fn lemma_seq_le_trans(a: Seq<u8>, b: Seq<u8>, c: Seq<u8>)
    requires
        seq_le(a, b),
        seq_le(b, c),
    ensures
        seq_le(a, c),
    decreases a.len(),
{
    if a.len() == 0 {
    } else if b.len() == 0 {
    } else if c.len() == 0 {
    } else {
        if a[0] == b[0] && b[0] == c[0] {
            lemma_seq_le_trans(a.drop_first(), b.drop_first(), c.drop_first());
        }
    }
}

/// Lexicographic comparison of two byte strings.
pub fn le_bytes(a: &Vec<u8>, b: &Vec<u8>) -> (r: bool)
    ensures
        r == seq_le(a@, b@),
{
    let mut i: usize = 0;
    assert(a@.skip(0) =~= a@);
    assert(b@.skip(0) =~= b@);
    loop
        invariant
            i <= a.len(),
            i <= b.len(),
            seq_le(a@, b@) == seq_le(a@.skip(i as int), b@.skip(i as int)),
        decreases a.len() - i,
    {
        if i == a.len() {
            assert(a@.skip(i as int).len() == 0);
            return true;
        }
        if i == b.len() {
            assert(b@.skip(i as int).len() == 0);
            return false;
        }
        let x = a[i];
        let y = b[i];
        assert(a@.skip(i as int)[0] == x && b@.skip(i as int)[0] == y);
        if x < y {
            return true;
        }
        if x > y {
            return false;
        }
        assert(a@.skip(i as int).drop_first() =~= a@.skip(i as int + 1));
        assert(b@.skip(i as int).drop_first() =~= b@.skip(i as int + 1));
        i = i + 1;
    }
}

/// Byte-string equality.
pub fn bytes_eq(a: &Vec<u8>, b: &Vec<u8>) -> (r: bool)
    ensures
        r == (a@ == b@),
{
    if a.len() != b.len() {
        return false;
    }
    let mut i: usize = 0;
    while i < a.len()
        invariant
            i <= a.len(),
            a.len() == b.len(),
            forall|j: int| 0 <= j < i ==> a@[j] == b@[j],
        decreases a.len() - i,
    {
        if a[i] != b[i] {
            return false;
        }
        i = i + 1;
    }
    assert(a@ =~= b@);
    true
}

/// `suffix` stands at the end of `v`.
pub open spec fn is_suffix_of(suffix: Seq<u8>, v: Seq<u8>) -> bool {
    suffix.len() <= v.len() && v.skip(v.len() - suffix.len()) == suffix
}

/// Test whether a byte string ends with the given suffix.
pub fn ends_with(v: &Vec<u8>, suffix: &Vec<u8>) -> (r: bool)
    ensures
        r == is_suffix_of(suffix@, v@),
{
    if suffix.len() > v.len() {
        return false;
    }
    let start: usize = v.len() - suffix.len();
    let mut i: usize = 0;
    while i < suffix.len()
        invariant
            i <= suffix.len(),
            suffix.len() <= v.len(),
            start == v.len() - suffix.len(),
            forall|j: int| 0 <= j < i ==> v@[start + j] == suffix@[j],
        decreases suffix.len() - i,
    {
        if v[start + i] != suffix[i] {
            assert(v@.skip(start as int)[i as int] != suffix@[i as int]);
            return false;
        }
        i = i + 1;
    }
    assert(v@.skip(start as int) =~= suffix@);
    true
}

/// Splitting a byte sequence on a separator byte. The result always holds at
/// least one part; empty segments are kept.
pub open spec fn split_seq(s: Seq<u8>, sep: u8) -> Seq<Seq<u8>>
    decreases s.len(),
{
    if s.len() == 0 {
        seq![Seq::<u8>::empty()]
    } else {
        let prev = split_seq(s.drop_last(), sep);
        if s.last() == sep {
            prev + seq![Seq::<u8>::empty()]
        } else {
            prev.drop_last() + seq![prev.last().push(s.last())]
        }
    }
}

/// Split a byte string on a separator byte, keeping empty segments.
pub fn split_on(v: &Vec<u8>, sep: u8) -> (parts: Vec<Vec<u8>>)
    ensures
        parts.deep_view() == split_seq(v@, sep),
{
    let mut done: Vec<Vec<u8>> = Vec::new();
    let mut cur: Vec<u8> = Vec::new();
    let mut i: usize = 0;
    assert(v@.take(0).len() == 0);
    assert(done.deep_view().push(cur@) =~~= split_seq(v@.take(0), sep));
    while i < v.len()
        invariant
            i <= v.len(),
            done.deep_view().push(cur@) == split_seq(v@.take(i as int), sep),
        decreases v.len() - i,
    {
        let ghost pre = v@.take(i as int);
        let b = v[i];
        assert(v@.take(i as int + 1).drop_last() =~= pre);
        assert(v@.take(i as int + 1).last() == b);
        if b == sep {
            let ghost old_done = done.deep_view();
            let ghost old_cur = cur@;
            done.push(cur);
            cur = Vec::new();
            assert(done.deep_view() =~~= old_done.push(old_cur));
            assert(done.deep_view().push(cur@) =~~= split_seq(v@.take(i as int + 1), sep));
        } else {
            let ghost prev = split_seq(pre, sep);
            cur.push(b);
            assert(prev.drop_last() =~~= done.deep_view());
            assert(done.deep_view().push(cur@) =~~= split_seq(v@.take(i as int + 1), sep));
        }
        i = i + 1;
    }
    assert(v@.take(v.len() as int) =~= v@);
    let ghost old_done = done.deep_view();
    done.push(cur);
    assert(done.deep_view() =~~= old_done.push(cur@));
    done
}

/// Joining byte sequences with a single separator byte between parts.
pub open spec fn join_seq(parts: Seq<Seq<u8>>, sep: u8) -> Seq<u8>
    decreases parts.len(),
{
    if parts.len() == 0 {
        Seq::<u8>::empty()
    } else if parts.len() == 1 {
        parts[0]
    } else {
        join_seq(parts.drop_last(), sep) + seq![sep] + parts.last()
    }
}

/// Join byte strings with a single separator byte between them.
pub fn join_with(parts: &Vec<Vec<u8>>, sep: u8) -> (r: Vec<u8>)
    ensures
        r@ == join_seq(parts.deep_view(), sep),
{
    let mut out: Vec<u8> = Vec::new();
    let mut i: usize = 0;
    while i < parts.len()
        invariant
            i <= parts.len(),
            out@ == join_seq(parts.deep_view().take(i as int), sep),
        decreases parts.len() - i,
    {
        let ghost pre = parts.deep_view().take(i as int);
        if i > 0 {
            out.push(sep);
        }
        let part = &parts[i];
        let mut j: usize = 0;
        let ghost base = out@;
        while j < part.len()
            invariant
                j <= part.len(),
                part@ == parts@[i as int]@,
                i < parts.len(),
                out@ == base + part@.take(j as int),
            decreases part.len() - j,
        {
            out.push(part[j]);
            assert(part@.take(j as int + 1) =~= part@.take(j as int).push(part@[j as int]));
            j = j + 1;
        }
        assert(part@.take(part@.len() as int) =~= part@);
        assert(parts.deep_view().take(i as int + 1).drop_last() =~= pre);
        assert(parts.deep_view().take(i as int + 1).last() == part@);
        i = i + 1;
    }
    assert(parts.deep_view().take(parts.len() as int) =~= parts.deep_view());
    out
}

/// The needle stands in the haystack at position `i`.
pub open spec fn match_at(hay: Seq<u8>, needle: Seq<u8>, i: int) -> bool {
    0 <= i && i + needle.len() <= hay.len() && hay.subrange(i, i + needle.len()) == needle
}

/// Index of the first occurrence of `needle` inside `hay`, if any.
pub open spec fn find_sub(hay: Seq<u8>, needle: Seq<u8>) -> Option<int>
    decreases hay.len(),
{
    if match_at(hay, needle, 0) {
        Some(0int)
    } else if hay.len() == 0 {
        None
    } else {
        match find_sub(hay.drop_first(), needle) {
            None => None,
            Some(i) => Some(i + 1),
        }
    }
}

/// A found position is a real occurrence.
pub proof fn lemma_find_sub_valid(hay: Seq<u8>, needle: Seq<u8>)
    ensures
        match find_sub(hay, needle) {
            Some(i) => match_at(hay, needle, i),
            None => true,
        },
    decreases hay.len(),
{
    if match_at(hay, needle, 0) {
    } else if hay.len() == 0 {
    } else {
        lemma_find_sub_valid(hay.drop_first(), needle);
        match find_sub(hay.drop_first(), needle) {
            Some(j) => {
                assert(hay.drop_first().subrange(j, j + needle.len()) =~= hay.subrange(
                    j + 1,
                    j + 1 + needle.len(),
                ));
            },
            None => {},
        }
    }
}

/// A needle longer than the haystack never occurs in it.
pub proof fn lemma_find_sub_short(hay: Seq<u8>, needle: Seq<u8>)
    requires
        needle.len() > hay.len(),
    ensures
        find_sub(hay, needle) is None,
    decreases hay.len(),
{
    if hay.len() > 0 {
        lemma_find_sub_short(hay.drop_first(), needle);
    }
}

/// Test whether `needle` stands in `hay` at position `i`.
fn is_match_at(hay: &Vec<u8>, needle: &Vec<u8>, i: usize) -> (r: bool)
    requires
        i + needle@.len() <= hay@.len(),
    ensures
        r == match_at(hay@, needle@, i as int),
{
    let hlen: usize = hay.len();
    let mut j: usize = 0;
    while j < needle.len()
        invariant
            j <= needle.len(),
            hlen == hay@.len(),
            i + needle@.len() <= hay@.len(),
            forall|k: int| 0 <= k < j ==> hay@[i + k] == needle@[k],
        decreases needle.len() - j,
    {
        assert(i + j < hay@.len());
        if hay[i + j] != needle[j] {
            assert(hay@.subrange(i as int, i + needle@.len())[j as int] != needle@[j as int]);
            return false;
        }
        j = j + 1;
    }
    assert(hay@.subrange(i as int, i + needle@.len()) =~= needle@);
    true
}

/// Find the first occurrence of `needle` inside `hay`.
pub fn find_first(hay: &Vec<u8>, needle: &Vec<u8>) -> (r: Option<usize>)
    requires
        needle@.len() >= 1,
    ensures
        match r {
            Some(i) => find_sub(hay@, needle@) == Some(i as int),
            None => find_sub(hay@, needle@) is None,
        },
{
    if needle.len() > hay.len() {
        proof {
            lemma_find_sub_short(hay@, needle@);
        }
        return None;
    }
    let last_start: usize = hay.len() - needle.len();
    let mut i: usize = 0;
    assert(hay@.skip(0) =~= hay@);
    let hlen: usize = hay.len();
    while i <= last_start
        invariant
            i <= last_start + 1,
            hlen == hay@.len(),
            1 <= needle@.len() <= hay@.len(),
            last_start == hay@.len() - needle@.len(),
            find_sub(hay@, needle@) == match find_sub(hay@.skip(i as int), needle@) {
                None => None::<int>,
                Some(k) => Some(k + i),
            },
        decreases last_start + 1 - i,
    {
        let hit = is_match_at(hay, needle, i);
        proof {
            assert(hay@.skip(i as int).subrange(0, needle@.len() as int) =~= hay@.subrange(
                i as int,
                i + needle@.len(),
            ));
        }
        if hit {
            assert(match_at(hay@.skip(i as int), needle@, 0));
            return Some(i);
        }
        assert(!match_at(hay@.skip(i as int), needle@, 0));
        assert(hay@.skip(i as int).len() > 0);
        assert(hay@.skip(i as int).drop_first() =~= hay@.skip(i as int + 1));
        i = i + 1;
    }
    proof {
        assert(hay@.skip(i as int).len() == hay@.len() - i);
        lemma_find_sub_short(hay@.skip(i as int), needle@);
    }
    None
}

/// The parts of a split with the empty segments discarded.
pub open spec fn nonempty_parts(parts: Seq<Seq<u8>>) -> Seq<Seq<u8>>
    decreases parts.len(),
{
    if parts.len() == 0 {
        Seq::empty()
    } else {
        nonempty_parts(parts.drop_last()) + if parts.last().len() > 0 {
            seq![parts.last()]
        } else {
            Seq::<Seq<u8>>::empty()
        }
    }
}

/// Keep only the nonempty parts of a split.
pub fn filter_nonempty(parts: &Vec<Vec<u8>>) -> (r: Vec<Vec<u8>>)
    ensures
        r.deep_view() == nonempty_parts(parts.deep_view()),
{
    let ghost all = parts.deep_view();
    let mut out: Vec<Vec<u8>> = Vec::new();
    let mut i: usize = 0;
    proof {
        assert(all.take(0).len() == 0);
        assert(out.deep_view() =~~= nonempty_parts(all.take(0)));
    }
    while i < parts.len()
        invariant
            i <= parts.len(),
            all == parts.deep_view(),
            out.deep_view() == nonempty_parts(all.take(i as int)),
        decreases parts.len() - i,
    {
        let ghost old_out = out.deep_view();
        proof {
            assert(all.take(i as int + 1).drop_last() =~= all.take(i as int));
            assert(all.take(i as int + 1).last() == all[i as int]);
        }
        if parts[i].len() > 0 {
            let p = parts[i].clone();
            proof {
                assert(p@ =~= parts@[i as int]@);
                assert(p@ == all[i as int]);
            }
            out.push(p);
            assert(out.deep_view() =~~= old_out.push(all[i as int]));
        }
        assert(out.deep_view() =~~= nonempty_parts(all.take(i as int + 1)));
        i = i + 1;
    }
    proof {
        assert(all.take(i as int) =~~= all);
    }
    out
}


/// Copy a list of byte strings.
pub fn copy_parts(parts: &Vec<Vec<u8>>) -> (r: Vec<Vec<u8>>)
    ensures
        r.deep_view() == parts.deep_view(),
{
    let ghost all = parts.deep_view();
    let mut out: Vec<Vec<u8>> = Vec::new();
    let mut i: usize = 0;
    while i < parts.len()
        invariant
            i <= parts.len(),
            all == parts.deep_view(),
            out.deep_view() == all.take(i as int),
        decreases parts.len() - i,
    {
        let ghost old_out = out.deep_view();
        let p = parts[i].clone();
        proof {
            assert(p@ =~= parts@[i as int]@);
        }
        out.push(p);
        proof {
            assert(out.deep_view() =~~= old_out.push(all[i as int]));
            assert(all.take(i as int + 1).drop_last() =~= all.take(i as int));
            assert(out.deep_view() =~~= all.take(i as int + 1));
        }
        i = i + 1;
    }
    proof {
        assert(all.take(i as int) =~~= all);
    }
    out
}

} // verus!
