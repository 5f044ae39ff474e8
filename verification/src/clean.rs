//! Comment and whitespace stripping.
//!
//! `clean` removes `#`-comments and trailing horizontal whitespace from
//! every line and drops lines that are left empty.  Surviving lines keep
//! their order, their leading indentation and their terminators; a final
//! line without a newline stays unterminated.

use vstd::prelude::*;
use crate::text::{is_ws_byte, HASH, NL};

verus! {

/// The part of a line before its first `#`, or all of it.
pub open spec fn before_hash(l: Seq<u8>) -> Seq<u8>
    decreases l.len(),
{
    if l.len() == 0 {
        Seq::empty()
    } else if l[0] == HASH {
        Seq::empty()
    } else {
        seq![l[0]] + before_hash(l.skip(1))
    }
}

/// A line with its trailing spaces and tabs removed.
pub open spec fn trim_trailing_ws(l: Seq<u8>) -> Seq<u8>
    decreases l.len(),
{
    if l.len() > 0 && is_ws_byte(l.last()) {
        trim_trailing_ws(l.drop_last())
    } else {
        l
    }
}

/// What survives of one line: the part before any comment, with trailing
/// whitespace removed.
pub open spec fn clean_line(l: Seq<u8>) -> Seq<u8> {
    trim_trailing_ws(before_hash(l))
}

/// Length of the first line of `s`: the index of the first newline, or
/// the whole length when there is none.
pub open spec fn line_len(s: Seq<u8>) -> nat
    decreases s.len(),
{
    if s.len() == 0 {
        0
    } else if s[0] == NL {
        0
    } else {
        1 + line_len(s.skip(1))
    }
}

/// The cleaned text: every line cleaned, empty lines dropped, order and
/// terminators kept.
pub open spec fn spec_clean(s: Seq<u8>) -> Seq<u8>
    decreases s.len(),
{
    if s.len() == 0 {
        Seq::empty()
    } else {
        let k = line_len(s);
        let c = clean_line(s.take(k as int));
        if k >= s.len() {
            c
        } else {
            let rest = spec_clean(s.skip((k + 1) as int));
            if c.len() == 0 {
                rest
            } else {
                c + seq![NL] + rest
            }
        }
    }
}

proof fn lemma_line_len_le(s: Seq<u8>)
    ensures
        line_len(s) <= s.len(),
        line_len(s) < s.len() ==> s[line_len(s) as int] == NL,
        forall|m: int| 0 <= m < line_len(s) ==> s[m] != NL,
    decreases s.len(),
{
    if s.len() > 0 && s[0] != NL {
        lemma_line_len_le(s.skip(1));
        let t = s.skip(1);
        if line_len(s) < s.len() {
            assert(s[line_len(s) as int] == t[line_len(t) as int]);
        }
        assert forall|m: int| 0 <= m < line_len(s) implies s[m] != NL by {
            if m > 0 {
                assert(s[m] == t[m - 1]);
            }
        }
    }
}

/// `before_hash` is the prefix up to the first `#`.
proof fn lemma_before_hash_take(l: Seq<u8>, k: int)
    requires
        0 <= k <= l.len(),
        forall|m: int| 0 <= m < k ==> l[m] != HASH,
        k < l.len() ==> l[k] == HASH,
    ensures
        before_hash(l) == l.take(k),
    decreases l.len(),
{
    if l.len() == 0 {
        assert(before_hash(l) =~= l.take(k));
    } else if k == 0 {
        assert(before_hash(l) =~= l.take(0));
    } else {
        lemma_before_hash_take(l.skip(1), k - 1);
        assert(seq![l[0]] + l.skip(1).take(k - 1) =~= l.take(k));
    }
}

/// `trim_trailing_ws` is the prefix up to the last non-whitespace byte.
proof fn lemma_trim_take(l: Seq<u8>, e: int)
    requires
        0 <= e <= l.len(),
        forall|m: int| e <= m < l.len() ==> is_ws_byte(l[m]),
        e > 0 ==> !is_ws_byte(l[e - 1]),
    ensures
        trim_trailing_ws(l) == l.take(e),
    decreases l.len(),
{
    if l.len() > e {
        assert(is_ws_byte(l.last()));
        lemma_trim_take(l.drop_last(), e);
    } else {
        assert(trim_trailing_ws(l) =~= l.take(e));
    }
}

/// What cleaning establishes: no `#` anywhere, no blank lines (a newline
/// is never first and never follows a newline), no trailing whitespace
/// (a newline never follows a space or tab, and an unterminated final
/// line does not end in one).
pub open spec fn is_cleaned(s: Seq<u8>) -> bool {
    &&& forall|i: int| 0 <= i < s.len() ==> s[i] != HASH
    &&& forall|i: int|
        0 <= i < s.len() && #[trigger] s[i] == NL ==> i > 0 && s[i - 1] != NL && !is_ws_byte(
            s[i - 1],
        )
    &&& s.len() > 0 ==> s[0] != NL
    &&& s.len() > 0 ==> (s.last() == NL || !is_ws_byte(s.last()))
}

/// A cleaned line is a prefix of the part before the comment, free of
/// `#` and of trailing whitespace.
proof fn lemma_clean_line_props(l: Seq<u8>)
    ensures
        clean_line(l).len() <= l.len(),
        forall|i: int| 0 <= i < clean_line(l).len() ==> clean_line(l)[i] == l[i],
        forall|i: int| 0 <= i < clean_line(l).len() ==> clean_line(l)[i] != HASH,
        clean_line(l).len() > 0 ==> !is_ws_byte(clean_line(l).last()),
{
    lemma_before_hash_props(l);
    lemma_trim_props(before_hash(l));
    let b = before_hash(l);
    let t = trim_trailing_ws(b);
    assert forall|i: int| 0 <= i < t.len() implies t[i] == l[i] && t[i] != HASH by {
        assert(t[i] == b[i]);
        assert(b[i] == l[i] && b[i] != HASH);
    }
}

proof fn lemma_before_hash_props(l: Seq<u8>)
    ensures
        before_hash(l).len() <= l.len(),
        forall|i: int|
            0 <= i < before_hash(l).len() ==> before_hash(l)[i] == l[i] && before_hash(l)[i]
                != HASH,
    decreases l.len(),
{
    if l.len() > 0 && l[0] != HASH {
        lemma_before_hash_props(l.skip(1));
        let b = before_hash(l);
        let t = before_hash(l.skip(1));
        assert forall|i: int| 0 <= i < b.len() implies b[i] == l[i] && b[i] != HASH by {
            if i > 0 {
                assert(b[i] == t[i - 1]);
                assert(l.skip(1)[i - 1] == l[i]);
            }
        }
    }
}

proof fn lemma_trim_props(l: Seq<u8>)
    ensures
        trim_trailing_ws(l).len() <= l.len(),
        forall|i: int| 0 <= i < trim_trailing_ws(l).len() ==> trim_trailing_ws(l)[i] == l[i],
        trim_trailing_ws(l).len() > 0 ==> !is_ws_byte(trim_trailing_ws(l).last()),
    decreases l.len(),
{
    if l.len() > 0 && is_ws_byte(l.last()) {
        lemma_trim_props(l.drop_last());
        let t = trim_trailing_ws(l);
        assert forall|i: int| 0 <= i < t.len() implies t[i] == l[i] by {
            assert(t[i] == l.drop_last()[i]);
        }
    }
}

/// Cleaning establishes `is_cleaned`.
pub proof fn lemma_clean_is_cleaned(s: Seq<u8>)
    ensures
        is_cleaned(spec_clean(s)),
    decreases s.len(),
{
    if s.len() > 0 {
        let k = line_len(s);
        lemma_line_len_le(s);
        let line = s.take(k as int);
        let c = clean_line(line);
        lemma_clean_line_props(line);
        assert forall|i: int| 0 <= i < line.len() implies line[i] != NL by {
            assert(line[i] == s[i]);
        }
        assert forall|i: int| 0 <= i < c.len() implies c[i] != NL && c[i] != HASH by {
            assert(c[i] == line[i]);
        }
        if k >= s.len() {
            assert(is_cleaned(c));
        } else {
            lemma_clean_is_cleaned(s.skip((k + 1) as int));
            let rest = spec_clean(s.skip((k + 1) as int));
            if c.len() == 0 {
            } else {
                let w = c + seq![NL] + rest;
                assert forall|i: int| 0 <= i < w.len() implies w[i] != HASH by {
                    if i < c.len() {
                        assert(w[i] == c[i]);
                    } else if i == c.len() {
                        assert(w[i] == NL);
                    } else {
                        assert(w[i] == rest[i - c.len() - 1]);
                    }
                }
                assert forall|i: int|
                    0 <= i < w.len() && #[trigger] w[i] == NL implies i > 0 && w[i - 1] != NL
                    && !is_ws_byte(w[i - 1]) by {
                    if i < c.len() {
                        assert(w[i] == c[i]);
                        assert(false);
                    } else if i == c.len() {
                        assert(w[i - 1] == c.last());
                    } else {
                        assert(w[i] == rest[i - c.len() - 1]);
                        if i - c.len() - 1 == 0 {
                            assert(false);
                        } else {
                            assert(w[i - 1] == rest[i - c.len() - 2]);
                        }
                    }
                }
                assert(w[0] == c[0]);
                if rest.len() > 0 {
                    assert(w.last() == rest.last());
                } else {
                    assert(w.last() == NL);
                }
                assert(is_cleaned(w));
            }
        }
    }
}

/// Cleaning leaves already-cleaned text unchanged.
pub proof fn lemma_clean_of_cleaned(s: Seq<u8>)
    requires
        is_cleaned(s),
    ensures
        spec_clean(s) == s,
    decreases s.len(),
{
    if s.len() > 0 {
        let k = line_len(s);
        lemma_line_len_le(s);
        let line = s.take(k as int);
        assert(forall|i: int| 0 <= i < line.len() ==> line[i] == s[i]);
        lemma_before_hash_take(line, line.len() as int);
        assert(before_hash(line) =~= line);
        if k >= s.len() {
            // No newline at all: the single line keeps its content.
            assert(line =~= s);
            if s.len() > 0 {
                assert(s.last() != NL ==> !is_ws_byte(s.last())) by {
                    if s.last() == NL {
                        assert(s[s.len() - 1] == NL);
                        assert(line_len(s) < s.len());
                    }
                }
                assert(s.last() != NL);
            }
            assert(trim_trailing_ws(line) == line) by {
                if line.len() > 0 {
                    assert(!is_ws_byte(line.last()));
                }
            }
            assert(spec_clean(s) == line);
        } else {
            assert(s[k as int] == NL);
            assert(k > 0);
            assert(!is_ws_byte(s[k - 1]));
            assert(line.last() == s[k - 1]);
            assert(trim_trailing_ws(line) == line);
            let c = clean_line(line);
            assert(c == line);
            assert(c.len() > 0);
            let tail = s.skip((k + 1) as int);
            assert(is_cleaned(tail)) by {
                assert(forall|i: int| 0 <= i < tail.len() ==> tail[i] == s[k + 1 + i]);
                if tail.len() > 0 {
                    if tail[0] == NL {
                        assert(s[(k + 1) as int] == NL && s[k as int] == NL);
                    }
                    assert(tail.last() == s.last());
                }
                assert forall|i: int|
                    0 <= i < tail.len() && #[trigger] tail[i] == NL implies i > 0 && tail[i - 1]
                    != NL && !is_ws_byte(tail[i - 1]) by {
                    assert(tail[i] == s[k + 1 + i]);
                    if i > 0 {
                        assert(tail[i - 1] == s[k + i]);
                    }
                }
            }
            lemma_clean_of_cleaned(tail);
            assert(spec_clean(s) == c + seq![NL] + tail);
            assert(c + seq![NL] + tail =~= s);
        }
    }
}

/// Cleaning is idempotent.
pub proof fn lemma_clean_idempotent(s: Seq<u8>)
    ensures
        spec_clean(spec_clean(s)) == spec_clean(s),
{
    lemma_clean_is_cleaned(s);
    lemma_clean_of_cleaned(spec_clean(s));
}

/// The lines of a text, in order, without their terminators.
pub open spec fn lines_of(s: Seq<u8>) -> Seq<Seq<u8>>
    decreases s.len(),
{
    if s.len() == 0 {
        Seq::empty()
    } else {
        let k = line_len(s);
        if k >= s.len() {
            seq![s]
        } else {
            seq![s.take(k as int)] + lines_of(s.skip((k + 1) as int))
        }
    }
}

/// The first newline position is the only index with the line-boundary
/// shape.
proof fn lemma_line_len_is(s: Seq<u8>, k: int)
    requires
        0 <= k <= s.len(),
        forall|m: int| 0 <= m < k ==> s[m] != NL,
        k < s.len() ==> s[k] == NL,
    ensures
        line_len(s) == k,
{
    lemma_line_len_le(s);
    if line_len(s) < k {
        assert(s[line_len(s) as int] != NL);
    }
    if line_len(s) > k {
        assert(s[k] == NL);
    }
}

/// A newline-free text is one line.
proof fn lemma_lines_of_single(c: Seq<u8>)
    requires
        c.len() > 0,
        forall|i: int| 0 <= i < c.len() ==> c[i] != NL,
    ensures
        lines_of(c) == seq![c],
{
    lemma_line_len_is(c, c.len() as int);
}

/// Splitting off one terminated, newline-free line.
proof fn lemma_lines_of_cons(c: Seq<u8>, t: Seq<u8>)
    requires
        forall|i: int| 0 <= i < c.len() ==> c[i] != NL,
    ensures
        lines_of(c + seq![NL] + t) == seq![c] + lines_of(t),
{
    let w = c + seq![NL] + t;
    assert forall|m: int| 0 <= m < c.len() implies w[m] != NL by {
        assert(w[m] == c[m]);
    }
    assert(w[c.len() as int] == NL);
    lemma_line_len_is(w, c.len() as int);
    assert(w.take(c.len() as int) =~= c);
    assert(w.skip(c.len() as int + 1) =~= t);
}

/// The cleaned lines that survive, in their original order.
pub open spec fn kept_lines(ls: Seq<Seq<u8>>) -> Seq<Seq<u8>>
    decreases ls.len(),
{
    if ls.len() == 0 {
        Seq::empty()
    } else {
        let rest = kept_lines(ls.skip(1));
        if clean_line(ls[0]).len() > 0 {
            seq![clean_line(ls[0])] + rest
        } else {
            rest
        }
    }
}

pub proof fn lemma_clean_order(s: Seq<u8>)
    ensures
        lines_of(spec_clean(s)) == kept_lines(lines_of(s)),
    decreases s.len(),
{
    if s.len() == 0 {
        assert(lines_of(spec_clean(s)) =~= kept_lines(lines_of(s)));
    } else {
        let k = line_len(s);
        lemma_line_len_le(s);
        let line = s.take(k as int);
        let c = clean_line(line);
        lemma_clean_line_props(line);
        assert forall|i: int| 0 <= i < c.len() implies c[i] != NL by {
            assert(c[i] == line[i]);
            assert(line[i] == s[i]);
        }
        if k >= s.len() {
            assert(line =~= s);
            assert(lines_of(s) == seq![line]);
            assert(seq![line].skip(1) =~= Seq::<Seq<u8>>::empty());
            assert(lines_of(s).skip(1) =~= Seq::<Seq<u8>>::empty());
            assert(kept_lines(Seq::<Seq<u8>>::empty()) == Seq::<Seq<u8>>::empty());
            assert(seq![line][0] == line);
            if c.len() > 0 {
                lemma_lines_of_single(c);
                assert(kept_lines(lines_of(s)) =~= seq![c]);
            } else {
                assert(lines_of(c) =~= Seq::<Seq<u8>>::empty());
                assert(kept_lines(lines_of(s)) =~= Seq::<Seq<u8>>::empty());
            }
        } else {
            let rest = s.skip((k + 1) as int);
            lemma_clean_order(rest);
            assert(lines_of(s) == seq![line] + lines_of(rest));
            assert(lines_of(s)[0] == line);
            assert(lines_of(s).skip(1) =~= lines_of(rest));
            if c.len() == 0 {
                assert(lines_of(spec_clean(s)) =~= kept_lines(lines_of(s)));
            } else {
                lemma_lines_of_cons(c, spec_clean(rest));
                assert(lines_of(spec_clean(s)) =~= kept_lines(lines_of(s)));
            }
        }
    }
}

/// Removes comments, trailing whitespace and blank lines.
pub fn clean(data: &Vec<u8>) -> (out: Vec<u8>)
    ensures
        out@ == spec_clean(data@),
{
    let n = data.len();
    let mut out: Vec<u8> = Vec::new();
    let mut i: usize = 0;
    proof {
        assert(data@.skip(0) =~= data@);
        assert(out@ + spec_clean(data@) =~= spec_clean(data@));
    }
    while i < n
        invariant
            n == data@.len(),
            0 <= i <= n,
            i < n ==> (i == 0 || data@[i - 1] == NL),
            spec_clean(data@) == out@ + spec_clean(data@.skip(i as int)),
        decreases n - i,
    {
        let ghost s = data@.skip(i as int);
        // End of the current line.
        let mut j: usize = i;
        while j < n && data[j] != NL
            invariant
                n == data@.len(),
                i <= j <= n,
                forall|m: int| i <= m < j ==> data@[m] != NL,
            decreases n - j,
        {
            j = j + 1;
        }
        proof {
            lemma_line_len_le(s);
            assert forall|m: int| 0 <= m < j - i implies s[m] != NL by {
                assert(s[m] == data@[i + m]);
            }
            if j < n {
                assert(s[j - i] == data@[j as int]);
            }
            // line_len(s) == j - i: both are the first newline position.
            if line_len(s) < j - i {
                assert(s[line_len(s) as int] != NL);
            }
            if line_len(s) > j - i {
                assert(data@[j as int] == NL);
            }
            assert(line_len(s) == j - i);
        }
        // Start of any comment on the line.
        let mut h: usize = i;
        while h < j && data[h] != HASH
            invariant
                n == data@.len(),
                i <= h <= j <= n,
                forall|m: int| i <= m < h ==> data@[m] != HASH,
            decreases j - h,
        {
            h = h + 1;
        }
        // End of the kept content: strip trailing whitespace.
        let mut e: usize = h;
        while e > i && (data[e - 1] == 32 || data[e - 1] == 9)
            invariant
                n == data@.len(),
                i <= e <= h <= n,
                forall|m: int| e <= m < h ==> is_ws_byte(data@[m]),
            decreases e,
        {
            e = e - 1;
        }
        proof {
            let ghost line = s.take((j - i) as int);
            assert forall|m: int| 0 <= m < h - i implies line[m] != HASH by {
                assert(line[m] == data@[i + m]);
            }
            if h < j {
                assert(line[h - i] == data@[h as int]);
            }
            lemma_before_hash_take(line, h - i);
            assert(before_hash(line) =~= s.take((h - i) as int));
            let ghost bh = s.take((h - i) as int);
            assert forall|m: int| e - i <= m < bh.len() implies is_ws_byte(bh[m]) by {
                assert(bh[m] == data@[i + m]);
            }
            if e > i {
                assert(bh[e - i - 1] == data@[e - 1]);
            }
            lemma_trim_take(bh, e - i);
            assert(clean_line(line) =~= s.take((e - i) as int));
        }
        // Copy the kept content.
        let ghost out0 = out@;
        let mut m: usize = i;
        while m < e
            invariant
                n == data@.len(),
                i <= m <= e <= n,
                out@ == out0 + data@.subrange(i as int, m as int),
            decreases e - m,
        {
            let b = data[m];
            out.push(b);
            m = m + 1;
            proof {
                assert(out@ =~= out0 + data@.subrange(i as int, m as int));
            }
        }
        proof {
            assert(data@.subrange(i as int, e as int) =~= s.take((e - i) as int));
        }
        if j < n {
            // The line is newline-terminated; keep the terminator unless
            // the whole line was dropped.
            if e > i {
                out.push(NL);
            }
            proof {
                let c = clean_line(s.take((j - i) as int));
                if e > i {
                    assert(out@ =~= out0 + c + seq![NL]);
                    assert(out0 + c + seq![NL] + spec_clean(s.skip((j - i + 1) as int)) =~= out0 + (
                    c + seq![NL] + spec_clean(s.skip((j - i + 1) as int))));
                } else {
                    assert(c.len() == 0);
                }
                assert(s.skip((j - i + 1) as int) =~= data@.skip((j + 1) as int));
            }
            i = j + 1;
        } else {
            proof {
                let c = clean_line(s.take((j - i) as int));
                assert(spec_clean(s) == c);
                assert(out@ =~= out0 + c);
                assert(spec_clean(data@.skip(n as int)) =~= Seq::<u8>::empty());
                assert(out@ + spec_clean(data@.skip(n as int)) =~= out@);
            }
            i = n;
        }
    }
    proof {
        assert(data@.skip(i as int) =~= Seq::<u8>::empty());
        assert(out@ + spec_clean(data@.skip(i as int)) =~= out@);
    }
    out
}

} // verus!
