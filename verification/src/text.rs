//! Byte-string helpers shared by the stored format and the queries.
//!
//! Text is handled as raw bytes throughout: symbols, display names and the
//! stored sections are `[u8]`, and every comparison is bytewise.

use vstd::prelude::*;

verus! {

/// The byte strings held by a vector of byte vectors.
pub open spec fn views(parts: Seq<Vec<u8>>) -> Seq<Seq<u8>> {
    Seq::new(parts.len(), |i: int| parts[i]@)
}

/// `s` cut at every occurrence of `sep`. There is always at least one piece:
/// `k` separators give `k + 1` pieces, some of which may be empty.
pub open spec fn split(s: Seq<u8>, sep: u8) -> Seq<Seq<u8>>
    decreases s.len(),
{
    if s.len() == 0 {
        seq![Seq::<u8>::empty()]
    } else {
        let before = split(s.drop_last(), sep);
        if s.last() == sep {
            before.push(Seq::<u8>::empty())
        } else {
            before.update(before.len() - 1, before.last().push(s.last()))
        }
    }
}

/// The pieces written one after another with `sep` between neighbours.
pub open spec fn join(parts: Seq<Seq<u8>>, sep: u8) -> Seq<u8>
    decreases parts.len(),
{
    if parts.len() == 0 {
        Seq::<u8>::empty()
    } else if parts.len() == 1 {
        parts[0]
    } else {
        join(parts.drop_last(), sep).push(sep) + parts.last()
    }
}

/// Writing a separator and one piece more behind joined pieces joins the
/// longer run.
pub proof fn lemma_join_extend(base: Seq<u8>, parts: Seq<Seq<u8>>, last: Seq<u8>, sep: u8)
    requires
        parts.len() >= 1,
    ensures
        (base + join(parts, sep)).push(sep) + last == base + join(parts.push(last), sep),
{
    assert(parts.push(last).drop_last() =~= parts);
    assert((base + join(parts, sep)).push(sep) + last =~= base + (join(parts, sep).push(sep)
        + last));
}

/// Whether the byte `b` occurs nowhere in `s`.
pub open spec fn free_of(s: Seq<u8>, b: u8) -> bool {
    forall|i: int| 0 <= i < s.len() ==> s[i] != b
}

/// Every piece of a split is free of the separator, and there is at least one.
pub proof fn lemma_split_pieces(s: Seq<u8>, sep: u8)
    ensures
        split(s, sep).len() >= 1,
        forall|i: int| 0 <= i < split(s, sep).len() ==> free_of(#[trigger] split(s, sep)[i], sep),
    decreases s.len(),
{
    if s.len() > 0 {
        lemma_split_pieces(s.drop_last(), sep);
    }
}

/// Splitting a separator-free string leaves it in one piece.
pub proof fn lemma_split_whole(s: Seq<u8>, sep: u8)
    requires
        free_of(s, sep),
    ensures
        split(s, sep) == seq![s],
    decreases s.len(),
{
    if s.len() == 0 {
        assert(s =~= Seq::<u8>::empty());
    } else {
        lemma_split_whole(s.drop_last(), sep);
        assert(split(s, sep) =~= seq![s]) by {
            assert(s.drop_last().push(s.last()) =~= s);
        }
    }
}

/// Splitting `a`, a separator and a separator-free `b` gives the pieces of
/// `a` followed by `b`.
pub proof fn lemma_split_extend(a: Seq<u8>, b: Seq<u8>, sep: u8)
    requires
        free_of(b, sep),
    ensures
        split(a.push(sep) + b, sep) == split(a, sep).push(b),
    decreases b.len(),
{
    let whole = a.push(sep) + b;
    if b.len() == 0 {
        assert(whole =~= a.push(sep));
        assert(whole.drop_last() =~= a);
        assert(b =~= Seq::<u8>::empty());
    } else {
        lemma_split_extend(a, b.drop_last(), sep);
        assert(whole.drop_last() =~= a.push(sep) + b.drop_last());
        assert(whole.last() == b.last());
        assert(b.drop_last().push(b.last()) =~= b);
        assert(split(whole, sep) =~= split(a, sep).push(b));
    }
}

/// Appending separator-free bytes to a string lengthens its last piece.
pub proof fn lemma_split_append(a: Seq<u8>, b: Seq<u8>, sep: u8)
    requires
        free_of(b, sep),
    ensures
        split(a + b, sep) == split(a, sep).update(
            split(a, sep).len() - 1,
            split(a, sep).last() + b,
        ),
    decreases b.len(),
{
    lemma_split_pieces(a, sep);
    let pieces = split(a, sep);
    if b.len() == 0 {
        assert(a + b =~= a);
        assert(pieces.last() + b =~= pieces.last());
        assert(pieces.update(pieces.len() - 1, pieces.last()) =~= pieces);
    } else {
        lemma_split_append(a, b.drop_last(), sep);
        assert((a + b).drop_last() =~= a + b.drop_last());
        assert((a + b).last() == b.last());
        assert((pieces.last() + b.drop_last()).push(b.last()) =~= pieces.last() + b);
        assert(split(a + b, sep) =~= pieces.update(pieces.len() - 1, pieces.last() + b));
    }
}

/// The lines written one after another, each followed by `end`.
pub open spec fn encode_lines(lines: Seq<Seq<u8>>, end: u8) -> Seq<u8>
    decreases lines.len(),
{
    if lines.len() == 0 {
        Seq::<u8>::empty()
    } else {
        encode_lines(lines.drop_last(), end) + lines.last().push(end)
    }
}

/// Splitting what `encode_lines` wrote gives the lines back, followed by one
/// empty piece, provided no line holds the terminator.
pub proof fn lemma_split_lines(lines: Seq<Seq<u8>>, end: u8)
    requires
        forall|i: int| 0 <= i < lines.len() ==> free_of(#[trigger] lines[i], end),
    ensures
        split(encode_lines(lines, end), end) == lines.push(Seq::<u8>::empty()),
    decreases lines.len(),
{
    if lines.len() == 0 {
        assert(split(encode_lines(lines, end), end) =~= lines.push(Seq::<u8>::empty()));
    } else {
        let before = lines.drop_last();
        let line = lines.last();
        let written = encode_lines(before, end);
        lemma_split_lines(before, end);
        lemma_split_append(written, line, end);
        assert(free_of(line, end));
        assert(encode_lines(lines, end) =~= (written + line).push(end));
        assert((written + line).push(end).drop_last() =~= written + line);
        assert(Seq::<u8>::empty() + line =~= line);
        assert(split(encode_lines(lines, end), end) =~= lines.push(Seq::<u8>::empty()));
    }
}

/// Joining and splitting again returns the pieces, provided none of them
/// holds the separator.
pub proof fn lemma_split_join(parts: Seq<Seq<u8>>, sep: u8)
    requires
        parts.len() >= 1,
        forall|i: int| 0 <= i < parts.len() ==> free_of(#[trigger] parts[i], sep),
    ensures
        split(join(parts, sep), sep) == parts,
    decreases parts.len(),
{
    if parts.len() == 1 {
        lemma_split_whole(parts[0], sep);
        assert(seq![parts[0]] =~= parts);
    } else {
        lemma_split_join(parts.drop_last(), sep);
        lemma_split_extend(join(parts.drop_last(), sep), parts.last(), sep);
        assert(parts.drop_last().push(parts.last()) =~= parts);
    }
}

/// A byte that occurs nowhere in a string occurs in none of its pieces.
pub proof fn lemma_split_free(s: Seq<u8>, sep: u8, b: u8)
    requires
        free_of(s, b),
    ensures
        forall|i: int| 0 <= i < split(s, sep).len() ==> free_of(#[trigger] split(s, sep)[i], b),
    decreases s.len(),
{
    if s.len() > 0 {
        lemma_split_free(s.drop_last(), sep, b);
        lemma_split_pieces(s.drop_last(), sep);
    }
}

/// A byte that occurs in no piece, and is not the separator, does not occur
/// in the joined string.
pub proof fn lemma_join_free(parts: Seq<Seq<u8>>, sep: u8, b: u8)
    requires
        sep != b,
        forall|i: int| 0 <= i < parts.len() ==> free_of(#[trigger] parts[i], b),
    ensures
        free_of(join(parts, sep), b),
    decreases parts.len(),
{
    if parts.len() >= 2 {
        lemma_join_free(parts.drop_last(), sep, b);
        assert(free_of(parts.last(), b));
    } else if parts.len() == 1 {
        assert(free_of(parts[0], b));
    }
}

/// Appends the bytes of `s` to `out`.
pub fn push_bytes(out: &mut Vec<u8>, s: &[u8])
    ensures
        final(out)@ == old(out)@ + s@,
{
    let mut i: usize = 0;
    assert(out@ =~= old(out)@ + s@.take(0));
    while i < s.len()
        invariant
            i <= s.len(),
            out@ == old(out)@ + s@.take(i as int),
        decreases s.len() - i,
    {
        out.push(s[i]);
        assert(out@ =~= old(out)@ + s@.take(i + 1));
        i += 1;
    }
    assert(s@.take(s.len() as int) =~= s@);
}

/// Whether the byte `b` occurs nowhere in `s`.
pub fn lacks_byte(s: &[u8], b: u8) -> (free: bool)
    ensures
        free == free_of(s@, b),
{
    let mut i: usize = 0;
    while i < s.len()
        invariant
            i <= s.len(),
            forall|k: int| 0 <= k < i ==> s@[k] != b,
        decreases s.len() - i,
    {
        if s[i] == b {
            return false;
        }
        i += 1;
    }
    true
}

/// A copy of the bytes of `s`.
pub fn copy_bytes(s: &[u8]) -> (out: Vec<u8>)
    ensures
        out@ == s@,
{
    let mut out: Vec<u8> = Vec::new();
    let mut i: usize = 0;
    while i < s.len()
        invariant
            i <= s.len(),
            out@ == s@.take(i as int),
        decreases s.len() - i,
    {
        out.push(s[i]);
        assert(s@.take(i + 1) =~= s@.take(i as int).push(s@[i as int]));
        i += 1;
    }
    assert(s@.take(s.len() as int) =~= s@);
    out
}

/// Cuts `s` at every occurrence of `sep`.
pub fn split_bytes(s: &[u8], sep: u8) -> (parts: Vec<Vec<u8>>)
    ensures
        views(parts@) == split(s@, sep),
{
    let mut parts: Vec<Vec<u8>> = Vec::new();
    let mut piece: Vec<u8> = Vec::new();
    let mut i: usize = 0;
    assert(s@.take(0) =~= Seq::<u8>::empty());
    while i < s.len()
        invariant
            i <= s.len(),
            views(parts@).push(piece@) == split(s@.take(i as int), sep),
        decreases s.len() - i,
    {
        let ghost done = views(parts@);
        let ghost open_piece = piece@;
        let ghost prefix = s@.take(i as int);
        let ghost next = s@.take(i + 1);
        assert(next.drop_last() =~= prefix);
        assert(next.last() == s@[i as int]);
        if s[i] == sep {
            parts.push(piece);
            piece = Vec::new();
            assert(views(parts@) =~= done.push(open_piece));
            assert(views(parts@).push(piece@) =~= split(next, sep));
        } else {
            piece.push(s[i]);
            assert(views(parts@).push(piece@) =~= split(next, sep));
        }
        i += 1;
    }
    assert(s@.take(s.len() as int) =~= s@);
    let ghost done = views(parts@);
    parts.push(piece);
    assert(views(parts@) =~= done.push(piece@));
    parts
}

/// Whether `needle` occurs in `hay` as a run of neighbouring bytes. The
/// comparison is bytewise, so upper and lower case differ. The empty run
/// occurs in every string.
pub open spec fn contains_run(hay: Seq<u8>, needle: Seq<u8>) -> bool {
    exists|i: int| occurs_at(hay, needle, i)
}

/// Whether `needle` stands in `hay` from position `i` on.
pub open spec fn occurs_at(hay: Seq<u8>, needle: Seq<u8>, i: int) -> bool {
    0 <= i && i + needle.len() <= hay.len() && hay.subrange(i, i + needle.len()) == needle
}

/// Whether `needle` occurs in `hay` as a run of neighbouring bytes.
pub fn contains_bytes(hay: &[u8], needle: &[u8]) -> (found: bool)
    ensures
        found == contains_run(hay@, needle@),
{
    let width = needle.len();
    if width > hay.len() {
        return false;
    }
    if width == 0 {
        assert(hay@.subrange(0, 0) =~= needle@);
        assert(occurs_at(hay@, needle@, 0));
        return true;
    }
    let last = hay.len() - width;
    let mut i: usize = 0;
    while i <= last
        invariant
            0 < width == needle@.len(),
            hay@.len() <= usize::MAX,
            last == hay@.len() - width,
            i <= last + 1,
            forall|k: int| 0 <= k < i ==> !occurs_at(hay@, needle@, k),
        decreases last + 1 - i,
    {
        let mut j: usize = 0;
        while j < width && hay[i + j] == needle[j]
            invariant
                width == needle@.len(),
                i + width <= hay@.len() <= usize::MAX,
                j <= width,
                forall|x: int| 0 <= x < j ==> hay@[i + x] == needle@[x],
            decreases width - j,
        {
            j += 1;
        }
        if j == width {
            assert(hay@.subrange(i as int, i + width) =~= needle@);
            assert(occurs_at(hay@, needle@, i as int));
            return true;
        }
        assert(!occurs_at(hay@, needle@, i as int)) by {
            assert(hay@.subrange(i as int, i + width)[j as int] == hay@[i + j]);
        }
        i += 1;
    }
    false
}

/// Whether `a` comes before `b` in the order of a dictionary, bytes compared
/// by value: at the first position where they differ `a` has the smaller
/// byte, or `a` ends there and `b` goes on.
pub open spec fn lex_lt(a: Seq<u8>, b: Seq<u8>) -> bool
    decreases a.len(),
{
    if b.len() == 0 {
        false
    } else if a.len() == 0 {
        true
    } else if a[0] != b[0] {
        a[0] < b[0]
    } else {
        lex_lt(a.skip(1), b.skip(1))
    }
}

/// Whether each string of the run comes before the ones behind it.
pub open spec fn ascending(run: Seq<Seq<u8>>) -> bool {
    forall|a: int, b: int| 0 <= a < b < run.len() ==> lex_lt(#[trigger] run[a], #[trigger] run[b])
}

/// No string comes before itself.
pub proof fn lemma_lex_irreflexive(a: Seq<u8>)
    ensures
        !lex_lt(a, a),
    decreases a.len(),
{
    if a.len() > 0 {
        lemma_lex_irreflexive(a.skip(1));
    }
}

/// Of two different strings one comes before the other.
pub proof fn lemma_lex_total(a: Seq<u8>, b: Seq<u8>)
    requires
        a != b,
    ensures
        lex_lt(a, b) || lex_lt(b, a),
    decreases a.len(),
{
    if a.len() > 0 && b.len() > 0 && a[0] == b[0] {
        if a.skip(1) == b.skip(1) {
            assert(a =~= seq![a[0]] + a.skip(1));
            assert(b =~= seq![b[0]] + b.skip(1));
        }
        lemma_lex_total(a.skip(1), b.skip(1));
    } else if a.len() == 0 && b.len() == 0 {
        assert(a =~= b);
    }
}

/// What comes before something that comes before a third comes before the
/// third.
pub proof fn lemma_lex_transitive(a: Seq<u8>, b: Seq<u8>, c: Seq<u8>)
    requires
        lex_lt(a, b),
        lex_lt(b, c),
    ensures
        lex_lt(a, c),
    decreases a.len(),
{
    if a.len() > 0 && a[0] == b[0] && b[0] == c[0] {
        lemma_lex_transitive(a.skip(1), b.skip(1), c.skip(1));
    }
}

/// Two ascending runs that hold the same strings are the same run.
pub proof fn lemma_ascending_unique(x: Seq<Seq<u8>>, y: Seq<Seq<u8>>)
    requires
        ascending(x),
        ascending(y),
        forall|s: Seq<u8>| x.contains(s) <==> y.contains(s),
    ensures
        x == y,
    decreases x.len(),
{
    if x.len() == 0 {
        if y.len() > 0 {
            assert(y.contains(y[0]));
        }
        assert(x =~= y);
    } else {
        let top = x.last();
        assert(x.contains(top));
        assert(y.contains(top));
        let j = choose|j: int| 0 <= j < y.len() && y[j] == top;
        assert(y.contains(y.last()));
        assert(x.contains(y.last()));
        let i = choose|i: int| 0 <= i < x.len() && x[i] == y.last();
        lemma_lex_irreflexive(top);
        if j < y.len() - 1 {
            assert(lex_lt(y[j], y[y.len() - 1]));
            if i < x.len() - 1 {
                assert(lex_lt(x[i], x[x.len() - 1]));
                lemma_lex_transitive(top, y.last(), top);
            }
        }
        assert(y.last() == top);
        let xs = x.drop_last();
        let ys = y.drop_last();
        assert forall|s: Seq<u8>| xs.contains(s) <==> ys.contains(s) by {
            lemma_lex_irreflexive(s);
            if xs.contains(s) {
                let k = choose|k: int| 0 <= k < xs.len() && xs[k] == s;
                assert(lex_lt(x[k], x[x.len() - 1]));
                assert(x.contains(s));
                let m = choose|m: int| 0 <= m < y.len() && y[m] == s;
                assert(ys[m] == s);
            }
            if ys.contains(s) {
                let k = choose|k: int| 0 <= k < ys.len() && ys[k] == s;
                assert(lex_lt(y[k], y[y.len() - 1]));
                assert(y.contains(s));
                let m = choose|m: int| 0 <= m < x.len() && x[m] == s;
                assert(xs[m] == s);
            }
        }
        assert forall|a: int, b: int| 0 <= a < b < xs.len() implies lex_lt(
            #[trigger] xs[a],
            #[trigger] xs[b],
        ) by {
            assert(lex_lt(x[a], x[b]));
        }
        assert forall|a: int, b: int| 0 <= a < b < ys.len() implies lex_lt(
            #[trigger] ys[a],
            #[trigger] ys[b],
        ) by {
            assert(lex_lt(y[a], y[b]));
        }
        lemma_ascending_unique(xs, ys);
        assert(x =~= xs.push(top));
        assert(y =~= ys.push(top));
    }
}

/// Whether `a` comes before `b` in the order of a dictionary.
pub fn bytes_lt(a: &[u8], b: &[u8]) -> (before: bool)
    ensures
        before == lex_lt(a@, b@),
{
    let mut i: usize = 0;
    assert(a@.skip(0) =~= a@ && b@.skip(0) =~= b@);
    while i < a.len() && i < b.len()
        invariant
            i <= a@.len(),
            i <= b@.len(),
            lex_lt(a@, b@) == lex_lt(a@.skip(i as int), b@.skip(i as int)),
        decreases a@.len() - i,
    {
        if a[i] != b[i] {
            return a[i] < b[i];
        }
        assert(a@.skip(i as int).skip(1) =~= a@.skip(i + 1));
        assert(b@.skip(i as int).skip(1) =~= b@.skip(i + 1));
        i += 1;
    }
    i < b.len()
}

/// Whether two byte strings hold the same bytes.
pub fn bytes_eq(a: &[u8], b: &[u8]) -> (same: bool)
    ensures
        same == (a@ == b@),
{
    if a.len() != b.len() {
        return false;
    }
    let mut i: usize = 0;
    while i < a.len()
        invariant
            a.len() == b.len(),
            i <= a.len(),
            forall|k: int| 0 <= k < i ==> a@[k] == b@[k],
        decreases a.len() - i,
    {
        if a[i] != b[i] {
            return false;
        }
        i += 1;
    }
    assert(a@ =~= b@);
    true
}

} // verus!
