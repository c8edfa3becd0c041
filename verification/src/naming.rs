//! Name normalization: the whitespace-collapse rule.
//!
//! A name is split into stem and extension at the last dot that is not in
//! first position; the stem is trimmed of leading and trailing whitespace,
//! every remaining whitespace run becomes a single underscore, ASCII letters
//! are lowered; the extension is kept in its original form. A hidden name
//! keeps its single leading dot, which never counts as an extension
//! separator.

use vstd::prelude::*;

verus! {

pub const DOT: u8 = 46;
pub const UNDERSCORE: u8 = 95;

/// The whitespace bytes the rule collapses: space, tab, line feed, carriage
/// return.
pub open spec fn is_space(b: u8) -> bool {
    b == 32 || b == 9 || b == 10 || b == 13
}

/// ASCII lowercasing of a single byte; everything but `A`..`Z` is unchanged.
pub open spec fn lower(b: u8) -> u8 {
    if 65 <= b && b <= 90 {
        (b + 32) as u8
    } else {
        b
    }
}

/// Drops leading whitespace.
pub open spec fn trim_left(s: Seq<u8>) -> Seq<u8>
    decreases s.len(),
{
    if s.len() > 0 && is_space(s[0]) {
        trim_left(s.drop_first())
    } else {
        s
    }
}

/// Drops trailing whitespace.
pub open spec fn trim_right(s: Seq<u8>) -> Seq<u8>
    decreases s.len(),
{
    if s.len() > 0 && is_space(s[s.len() - 1]) {
        trim_right(s.drop_last())
    } else {
        s
    }
}

/// Drops whitespace at both ends.
pub open spec fn trim(s: Seq<u8>) -> Seq<u8> {
    trim_right(trim_left(s))
}

/// Collapses every whitespace run into one underscore (emitted at the run's
/// last byte) and lowers every other byte.
pub open spec fn collapse(s: Seq<u8>) -> Seq<u8>
    decreases s.len(),
{
    if s.len() == 0 {
        Seq::empty()
    } else if is_space(s[0]) {
        if s.len() > 1 && is_space(s[1]) {
            collapse(s.drop_first())
        } else {
            seq![UNDERSCORE] + collapse(s.drop_first())
        }
    } else {
        seq![lower(s[0])] + collapse(s.drop_first())
    }
}

/// What a stem becomes: trimmed, collapsed, lowered.
pub open spec fn norm_stem(s: Seq<u8>) -> Seq<u8> {
    collapse(trim(s))
}

/// The index of the last dot of `s` that is not in first position, if any:
/// the extension separator.
pub open spec fn last_dot(s: Seq<u8>) -> Option<int>
    decreases s.len(),
{
    if s.len() <= 1 {
        None
    } else if s[s.len() - 1] == DOT {
        Some(s.len() - 1)
    } else {
        last_dot(s.drop_last())
    }
}

/// The stem: everything before the extension separator.
pub open spec fn stem_of(s: Seq<u8>) -> Seq<u8> {
    match last_dot(s) {
        Some(i) => s.subrange(0, i),
        None => s,
    }
}

/// The extension part: the separator dot and everything after it, kept
/// verbatim; empty when there is no separator.
pub open spec fn ext_of(s: Seq<u8>) -> Seq<u8> {
    match last_dot(s) {
        Some(i) => s.subrange(i, s.len() as int),
        None => Seq::empty(),
    }
}

/// A name without hidden marker: normalized stem with the extension
/// reattached.
pub open spec fn norm_plain(s: Seq<u8>) -> Seq<u8> {
    norm_stem(stem_of(s)) + ext_of(s)
}

/// The full rule: a hidden name keeps its leading dot and the rest is
/// normalized; any other name is normalized as a whole.
pub open spec fn spec_normalize(s: Seq<u8>, hidden: bool) -> Seq<u8> {
    if hidden && s.len() > 0 && s[0] == DOT {
        seq![DOT] + norm_plain(s.drop_first())
    } else {
        norm_plain(s)
    }
}

/// The name the walk aims at: `spec_normalize` with the hidden flag read off
/// the name itself.
pub open spec fn spec_rename_target(s: Seq<u8>) -> Seq<u8> {
    spec_normalize(s, crate::spec_hidden(s))
}

fn is_space_byte(b: u8) -> (r: bool)
    ensures
        r == is_space(b),
{
    b == 32 || b == 9 || b == 10 || b == 13
}

fn to_lower_byte(b: u8) -> (r: u8)
    ensures
        r == lower(b),
{
    if 65 <= b && b <= 90 {
        b + 32
    } else {
        b
    }
}

/// Copies `v[from..to]` into a fresh vector.
pub fn copy_range(v: &Vec<u8>, from: usize, to: usize) -> (r: Vec<u8>)
    requires
        from <= to <= v.len(),
    ensures
        r@ == v@.subrange(from as int, to as int),
{
    let mut r: Vec<u8> = Vec::new();
    let mut i: usize = from;
    while i < to
        invariant
            from <= i <= to <= v.len(),
            r@ == v@.subrange(from as int, i as int),
        decreases to - i,
    {
        r.push(v[i]);
        proof {
            assert(v@.subrange(from as int, i + 1) =~= v@.subrange(from as int, i as int).push(
                v@[i as int],
            ));
        }
        i = i + 1;
    }
    r
}

/// Appends all of `src` to `dst`.
pub fn append_bytes(dst: &mut Vec<u8>, src: &Vec<u8>)
    ensures
        final(dst)@ == old(dst)@ + src@,
{
    let mut i: usize = 0;
    while i < src.len()
        invariant
            i <= src.len(),
            dst@ == old(dst)@ + src@.subrange(0, i as int),
        decreases src.len() - i,
    {
        dst.push(src[i]);
        proof {
            assert(src@.subrange(0, i + 1) =~= src@.subrange(0, i as int).push(src@[i as int]));
            assert(old(dst)@ + src@.subrange(0, i + 1) =~= (old(dst)@ + src@.subrange(
                0,
                i as int,
            )).push(src@[i as int]));
        }
        i = i + 1;
    }
    proof {
        assert(src@.subrange(0, src.len() as int) =~= src@);
    }
}

/// If a dot stands at `i >= 1` and no dot after it, `i` is the separator.
proof fn lemma_last_dot_at(s: Seq<u8>, i: int)
    requires
        1 <= i < s.len(),
        s[i] == DOT,
        forall|j: int| i < j < s.len() ==> s[j] != DOT,
    ensures
        last_dot(s) == Some(i),
    decreases s.len(),
{
    if i == s.len() - 1 {
    } else {
        assert(s[s.len() - 1] != DOT);
        lemma_last_dot_at(s.drop_last(), i);
    }
}

/// If no dot stands at any index `>= 1`, there is no separator.
proof fn lemma_last_dot_none(s: Seq<u8>)
    requires
        forall|j: int| 1 <= j < s.len() ==> s[j] != DOT,
    ensures
        last_dot(s) is None,
    decreases s.len(),
{
    if s.len() > 1 {
        lemma_last_dot_none(s.drop_last());
    }
}

/// What the separator position means for the bytes of the name.
pub proof fn lemma_last_dot_props(s: Seq<u8>)
    ensures
        match last_dot(s) {
            Some(i) => 1 <= i < s.len() && s[i] == DOT && (forall|j: int|
                i < j < s.len() ==> s[j] != DOT),
            None => forall|j: int| 1 <= j < s.len() ==> s[j] != DOT,
        },
    decreases s.len(),
{
    if s.len() > 1 && s[s.len() - 1] != DOT {
        lemma_last_dot_props(s.drop_last());
        assert(forall|j: int| 0 <= j < s.len() - 1 ==> s.drop_last()[j] == s[j]);
    }
}

/// A name is its stem followed by its extension part.
pub proof fn lemma_split_parts(s: Seq<u8>)
    ensures
        s == stem_of(s) + ext_of(s),
{
    lemma_last_dot_props(s);
    assert(s =~= stem_of(s) + ext_of(s));
}

/// Finds the extension separator: the last dot not in first position.
pub fn find_last_dot(v: &Vec<u8>) -> (r: Option<usize>)
    ensures
        match r {
            Some(i) => i < v.len() && last_dot(v@) == Some(i as int),
            None => last_dot(v@) is None,
        },
{
    let mut i: usize = v.len();
    while i > 1
        invariant
            i <= v.len(),
            forall|j: int| i <= j < v@.len() ==> v@[j] != DOT,
        decreases i,
    {
        i = i - 1;
        if v[i] == DOT {
            proof {
                lemma_last_dot_at(v@, i as int);
            }
            return Some(i);
        }
    }
    proof {
        lemma_last_dot_none(v@);
    }
    None
}

/// Trims and collapses a stem.
pub fn collapse_trim(v: &Vec<u8>) -> (r: Vec<u8>)
    ensures
        r@ == norm_stem(v@),
{
    let n = v.len();
    proof {
        assert(v@.subrange(0, n as int) =~= v@);
    }
    let mut lo: usize = 0;
    while lo < n && is_space_byte(v[lo])
        invariant
            lo <= n == v.len(),
            trim_left(v@) == trim_left(v@.subrange(lo as int, n as int)),
        decreases n - lo,
    {
        proof {
            assert(v@.subrange(lo as int, n as int).drop_first() =~= v@.subrange(
                lo + 1,
                n as int,
            ));
        }
        lo = lo + 1;
    }
    proof {
        assert(trim_left(v@) == v@.subrange(lo as int, n as int));
    }
    let mut hi: usize = n;
    while hi > lo && is_space_byte(v[hi - 1])
        invariant
            lo <= hi <= n == v.len(),
            trim(v@) == trim_right(v@.subrange(lo as int, hi as int)),
        decreases hi,
    {
        proof {
            assert(v@.subrange(lo as int, hi as int).drop_last() =~= v@.subrange(
                lo as int,
                hi - 1,
            ));
        }
        hi = hi - 1;
    }
    proof {
        assert(trim(v@) == v@.subrange(lo as int, hi as int));
    }
    let t = copy_range(v, lo, hi);
    collapse_bytes(&t)
}

/// Collapses whitespace runs to underscores and lowers the rest.
pub fn collapse_bytes(t: &Vec<u8>) -> (r: Vec<u8>)
    ensures
        r@ == collapse(t@),
{
    let n = t.len();
    proof {
        assert(t@.subrange(0, n as int) =~= t@);
        assert(Seq::<u8>::empty() + collapse(t@) =~= collapse(t@));
    }
    let mut out: Vec<u8> = Vec::new();
    let mut i: usize = 0;
    while i < n
        invariant
            i <= n == t.len(),
            collapse(t@) == out@ + collapse(t@.subrange(i as int, n as int)),
        decreases n - i,
    {
        proof {
            assert(t@.subrange(i as int, n as int).drop_first() =~= t@.subrange(i + 1, n as int));
        }
        let b = t[i];
        if is_space_byte(b) {
            if i + 1 == n || !is_space_byte(t[i + 1]) {
                out.push(UNDERSCORE);
                proof {
                    assert(collapse(t@.subrange(i as int, n as int)) == seq![UNDERSCORE]
                        + collapse(t@.subrange(i + 1, n as int)));
                    assert(out@ + collapse(t@.subrange(i + 1, n as int)) =~= out@.drop_last()
                        + (seq![UNDERSCORE] + collapse(t@.subrange(i + 1, n as int))));
                }
            }
        } else {
            out.push(to_lower_byte(b));
            proof {
                assert(out@ + collapse(t@.subrange(i + 1, n as int)) =~= out@.drop_last() + (seq![
                    lower(t@[i as int]),
                ] + collapse(t@.subrange(i + 1, n as int))));
            }
        }
        i = i + 1;
    }
    proof {
        assert(t@.subrange(n as int, n as int) =~= Seq::<u8>::empty());
        assert(out@ + Seq::<u8>::empty() =~= out@);
    }
    out
}

/// Normalizes a name that carries no hidden marker.
pub fn normalize_plain(v: &Vec<u8>) -> (r: Vec<u8>)
    ensures
        r@ == norm_plain(v@),
{
    let stem_end = match find_last_dot(v) {
        Some(i) => i,
        None => v.len(),
    };
    let stem = copy_range(v, 0, stem_end);
    let ext = copy_range(v, stem_end, v.len());
    proof {
        assert(stem@ == stem_of(v@));
        assert(ext@ == ext_of(v@));
        if last_dot(v@) is None {
            assert(v@.subrange(0, v@.len() as int) =~= v@);
            assert(v@.subrange(v@.len() as int, v@.len() as int) =~= Seq::<u8>::empty());
        }
    }
    let mut r = collapse_trim(&stem);
    append_bytes(&mut r, &ext);
    r
}

/// Normalizes a name under the whitespace-collapse rule; a hidden name keeps
/// its leading dot.
pub fn normalize(name: &Vec<u8>, hidden: bool) -> (r: Vec<u8>)
    ensures
        r@ == spec_normalize(name@, hidden),
{
    if hidden && name.len() > 0 && name[0] == DOT {
        let body = copy_range(name, 1, name.len());
        proof {
            assert(body@ =~= name@.drop_first());
        }
        let plain = normalize_plain(&body);
        let mut out: Vec<u8> = Vec::new();
        out.push(DOT);
        append_bytes(&mut out, &plain);
        proof {
            assert(out@ =~= seq![DOT] + norm_plain(name@.drop_first()));
        }
        out
    } else {
        normalize_plain(name)
    }
}

/// Normalizes a name, reading the hidden marker off the name itself.
pub fn rename_target(name: &Vec<u8>) -> (r: Vec<u8>)
    ensures
        r@ == spec_rename_target(name@),
{
    let hidden = crate::is_hidden(name);
    normalize(name, hidden)
}

/// Every byte a collapse emits is non-whitespace and fixed under lowering.
proof fn lemma_collapse_chars(s: Seq<u8>)
    ensures
        forall|i: int|
            0 <= i < collapse(s).len() ==> !is_space(#[trigger] collapse(s)[i]) && lower(
                collapse(s)[i],
            ) == collapse(s)[i],
    decreases s.len(),
{
    if s.len() > 0 {
        lemma_collapse_chars(s.drop_first());
        let rest = collapse(s.drop_first());
        if !(is_space(s[0]) && s.len() > 1 && is_space(s[1])) {
            assert(forall|i: int| 1 <= i < collapse(s).len() ==> #[trigger] collapse(s)[i]
                == rest[i - 1]);
        }
    }
}

/// Collapsing a dot-free sequence yields a dot-free sequence.
proof fn lemma_collapse_dot_free(s: Seq<u8>)
    requires
        forall|j: int| 0 <= j < s.len() ==> s[j] != DOT,
    ensures
        forall|i: int| 0 <= i < collapse(s).len() ==> #[trigger] collapse(s)[i] != DOT,
    decreases s.len(),
{
    if s.len() > 0 {
        assert(forall|j: int| 0 <= j < s.drop_first().len() ==> s.drop_first()[j] != DOT);
        lemma_collapse_dot_free(s.drop_first());
        let rest = collapse(s.drop_first());
        if !(is_space(s[0]) && s.len() > 1 && is_space(s[1])) {
            assert(forall|i: int| 1 <= i < collapse(s).len() ==> #[trigger] collapse(s)[i]
                == rest[i - 1]);
        }
    }
}

/// A sequence of non-whitespace, lower-fixed bytes is its own normal stem.
proof fn lemma_fixed_point(s: Seq<u8>)
    requires
        forall|i: int| 0 <= i < s.len() ==> !is_space(#[trigger] s[i]) && lower(s[i]) == s[i],
    ensures
        trim(s) == s,
        collapse(s) == s,
        norm_stem(s) == s,
    decreases s.len(),
{
    if s.len() > 0 {
        assert(!is_space(s[0]));
        assert(!is_space(s[s.len() - 1]));
        assert(forall|i: int|
            0 <= i < s.drop_first().len() ==> !is_space(#[trigger] s.drop_first()[i]) && lower(
                s.drop_first()[i],
            ) == s.drop_first()[i]);
        lemma_fixed_point(s.drop_first());
        assert(collapse(s) =~= s);
    }
}

/// Normalizing a stem is idempotent, and its output bytes are non-whitespace
/// and lower-fixed.
pub proof fn lemma_norm_stem_fixed(s: Seq<u8>)
    ensures
        forall|i: int|
            0 <= i < norm_stem(s).len() ==> !is_space(#[trigger] norm_stem(s)[i]) && lower(
                norm_stem(s)[i],
            ) == norm_stem(s)[i],
        norm_stem(norm_stem(s)) == norm_stem(s),
{
    lemma_collapse_chars(trim(s));
    lemma_fixed_point(norm_stem(s));
}

/// Trimming on the right keeps a prefix of the sequence.
proof fn lemma_trim_right_prefix(s: Seq<u8>)
    ensures
        trim_right(s).len() <= s.len(),
        forall|i: int| 0 <= i < trim_right(s).len() ==> #[trigger] trim_right(s)[i] == s[i],
    decreases s.len(),
{
    if s.len() > 0 && is_space(s[s.len() - 1]) {
        lemma_trim_right_prefix(s.drop_last());
    }
}

/// Trimming on the left keeps a suffix of the sequence.
proof fn lemma_trim_left_suffix(s: Seq<u8>)
    ensures
        trim_left(s).len() <= s.len(),
        forall|i: int|
            0 <= i < trim_left(s).len() ==> #[trigger] trim_left(s)[i] == s[i + s.len()
                - trim_left(s).len()],
    decreases s.len(),
{
    if s.len() > 0 && is_space(s[0]) {
        lemma_trim_left_suffix(s.drop_first());
    }
}

/// Trimming a dot-free sequence yields a dot-free sequence.
proof fn lemma_trim_dot_free(s: Seq<u8>)
    requires
        forall|j: int| 0 <= j < s.len() ==> s[j] != DOT,
    ensures
        forall|i: int| 0 <= i < trim(s).len() ==> #[trigger] trim(s)[i] != DOT,
{
    lemma_trim_left_suffix(s);
    lemma_trim_right_prefix(trim_left(s));
}

/// A stem whose dots all stand in first position keeps that shape through
/// normalization.
proof fn lemma_norm_stem_dots(st: Seq<u8>)
    requires
        forall|j: int| 1 <= j < st.len() ==> st[j] != DOT,
    ensures
        forall|i: int| 1 <= i < norm_stem(st).len() ==> #[trigger] norm_stem(st)[i] != DOT,
        (st.len() == 0 || st[0] != DOT) ==> (forall|i: int|
            0 <= i < norm_stem(st).len() ==> #[trigger] norm_stem(st)[i] != DOT),
{
    if st.len() == 0 {
    } else if st[0] == DOT {
        assert(trim_left(st) == st);
        lemma_trim_right_prefix(st);
        let tr = trim(st);
        if tr.len() > 0 {
            assert(tr[0] == DOT);
            assert(!is_space(tr[0]));
            assert(collapse(tr) == seq![lower(tr[0])] + collapse(tr.drop_first()));
            assert(forall|j: int| 0 <= j < tr.drop_first().len() ==> tr.drop_first()[j] != DOT);
            lemma_collapse_dot_free(tr.drop_first());
        }
    } else {
        assert(forall|j: int| 0 <= j < st.len() ==> st[j] != DOT);
        lemma_trim_dot_free(st);
        lemma_collapse_dot_free(trim(st));
    }
}

/// Holds when normalizing does not dissolve the stem of a name that has an
/// extension: the stem must keep at least one byte, and in a non-hidden name
/// more than a bare dot. Names such as `" .TXT"`, whose stem is all
/// whitespace, gain a fresh leading dot when renamed and are read as hidden
/// on the next pass.
pub open spec fn stem_keeps_name(s: Seq<u8>) -> bool {
    let h = crate::spec_hidden(s);
    let body = if h {
        s.drop_first()
    } else {
        s
    };
    let c = norm_stem(stem_of(body));
    ext_of(body).len() > 0 ==> (c.len() > 0 && (h || c != seq![DOT]))
}

/// The separator of `c + e` is the first byte of `e` when `c` is non-empty
/// and `e` is a dot followed by dot-free bytes.
proof fn lemma_parse_concat(c: Seq<u8>, e: Seq<u8>)
    requires
        c.len() >= 1,
        e.len() >= 1,
        e[0] == DOT,
        forall|j: int| 1 <= j < e.len() ==> e[j] != DOT,
    ensures
        last_dot(c + e) == Some(c.len() as int),
        stem_of(c + e) == c,
        ext_of(c + e) == e,
{
    let s = c + e;
    assert(s[c.len() as int] == DOT);
    assert(forall|j: int| c.len() < j < s.len() ==> s[j] == e[j - c.len()]);
    lemma_last_dot_at(s, c.len() as int);
    assert(s.subrange(0, c.len() as int) =~= c);
    assert(s.subrange(c.len() as int, s.len() as int) =~= e);
}

/// A sequence with no dot past its first byte is all stem.
proof fn lemma_parse_whole(c: Seq<u8>)
    requires
        forall|j: int| 1 <= j < c.len() ==> c[j] != DOT,
    ensures
        stem_of(c) == c,
        ext_of(c) == Seq::<u8>::empty(),
{
    lemma_last_dot_none(c);
}

/// Renaming is idempotent: a second pass leaves the produced name alone.
/// The one family of names left out by `stem_keeps_name` is named there.
pub proof fn lemma_rename_idempotent(s: Seq<u8>)
    requires
        stem_keeps_name(s),
    ensures
        spec_rename_target(spec_rename_target(s)) == spec_rename_target(s),
{
    let h = crate::spec_hidden(s);
    let body = if h {
        s.drop_first()
    } else {
        s
    };
    lemma_last_dot_props(body);
    lemma_split_parts(body);
    let st = stem_of(body);
    let ex = ext_of(body);
    let c = norm_stem(st);
    lemma_norm_stem_fixed(st);
    let r = spec_rename_target(s);
    if h {
        assert(r == seq![DOT] + (c + ex));
        assert(r[0] == DOT);
        assert(crate::spec_hidden(r));
        let body2 = r.drop_first();
        assert(body2 =~= c + ex);
        if ex.len() == 0 {
            assert(body2 =~= c);
            lemma_norm_stem_dots(st);
            lemma_parse_whole(c);
            lemma_fixed_point(c);
            assert(spec_rename_target(r) =~= seq![DOT] + (c + Seq::<u8>::empty()));
            assert(seq![DOT] + (c + Seq::<u8>::empty()) =~= r);
        } else {
            assert(c.len() > 0);
            assert(ex[0] == DOT);
            assert(forall|j: int| 1 <= j < ex.len() ==> ex[j] != DOT);
            lemma_parse_concat(c, ex);
            lemma_fixed_point(c);
            assert(spec_rename_target(r) == seq![DOT] + (c + ex));
            assert(spec_rename_target(r) == r);
        }
    } else {
        assert(r == c + ex);
        if r.len() == 0 {
            assert(trim(Seq::<u8>::empty()) =~= Seq::<u8>::empty());
            assert(spec_rename_target(r) =~= r);
        } else if ex.len() == 0 {
            assert(r =~= c);
            assert(st == body);
            if s.len() == 0 {
                assert(c.len() == 0);
            } else {
                assert(s[0] != DOT);
                assert(forall|j: int| 0 <= j < st.len() ==> st[j] != DOT);
                lemma_trim_dot_free(st);
                lemma_collapse_dot_free(trim(st));
                assert(forall|i: int| 0 <= i < c.len() ==> c[i] != DOT);
                assert(c.len() > 0 ==> c[0] != DOT);
                assert(!crate::spec_hidden(r));
                lemma_parse_whole(c);
                lemma_fixed_point(c);
                assert(spec_rename_target(r) =~= c + Seq::<u8>::empty());
                assert(c + Seq::<u8>::empty() =~= r);
            }
        } else {
            assert(ex[0] == DOT);
            assert(forall|j: int| 1 <= j < ex.len() ==> ex[j] != DOT);
            assert(c.len() > 0 && c != seq![DOT]);
            if c[0] != DOT {
                assert(r[0] == c[0]);
                assert(!crate::spec_hidden(r));
                lemma_parse_concat(c, ex);
                lemma_fixed_point(c);
                assert(spec_rename_target(r) == c + ex);
            } else {
                assert(c.len() >= 2) by {
                    if c.len() == 1 {
                        assert(c =~= seq![DOT]);
                    }
                }
                assert(r[0] == DOT);
                assert(crate::spec_hidden(r));
                let c2 = c.drop_first();
                let body2 = r.drop_first();
                assert(body2 =~= c2 + ex);
                assert(forall|i: int|
                    0 <= i < c2.len() ==> !is_space(#[trigger] c2[i]) && lower(c2[i]) == c2[i]);
                lemma_parse_concat(c2, ex);
                lemma_fixed_point(c2);
                assert(spec_rename_target(r) == seq![DOT] + (c2 + ex));
                assert(seq![DOT] + (c2 + ex) =~= c + ex);
            }
        }
    }
}

} // verus!
