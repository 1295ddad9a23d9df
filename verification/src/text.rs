//! Character-sequence utilities: searching, splitting on a separator,
//! joining with a terminator, and lexicographic ordering.

use vstd::prelude::*;

verus! {

/// Index of the first occurrence of `c` in `s`, or `-1` if `c` does not occur.
pub open spec fn find_char(s: Seq<char>, c: char) -> int
    decreases s.len(),
{
    if s.len() == 0 {
        -1
    } else if s[0] == c {
        0
    } else {
        let r = find_char(s.subrange(1, s.len() as int), c);
        if r < 0 {
            -1
        } else {
            r + 1
        }
    }
}

/// `find_char` returns either `-1` (and then `c` does not occur) or the
/// position of the first occurrence.
pub proof fn lemma_find_char(s: Seq<char>, c: char)
    ensures
        find_char(s, c) == -1 ==> forall|j: int| 0 <= j < s.len() ==> s[j] != c,
        find_char(s, c) != -1 ==> 0 <= find_char(s, c) < s.len(),
        find_char(s, c) != -1 ==> s[find_char(s, c)] == c,
        find_char(s, c) != -1 ==> forall|j: int| 0 <= j < find_char(s, c) ==> s[j] != c,
    decreases s.len(),
{
    if s.len() == 0 {
    } else if s[0] == c {
    } else {
        let t = s.subrange(1, s.len() as int);
        lemma_find_char(t, c);
        assert forall|j: int| 1 <= j < s.len() implies s[j] == t[j - 1] by {}
    }
}

/// If `c` first occurs in `s` at `i`, then `find_char` returns `i`.
pub proof fn lemma_find_char_at(s: Seq<char>, c: char, i: int)
    requires
        0 <= i < s.len(),
        s[i] == c,
        forall|j: int| 0 <= j < i ==> s[j] != c,
    ensures
        find_char(s, c) == i,
    decreases s.len(),
{
    if i == 0 {
    } else {
        let t = s.subrange(1, s.len() as int);
        assert forall|j: int| 0 <= j < s.len() - 1 implies t[j] == s[j + 1] by {}
        lemma_find_char_at(t, c, i - 1);
    }
}

/// If `c` does not occur in `s`, then `find_char` returns `-1`.
pub proof fn lemma_find_char_none(s: Seq<char>, c: char)
    requires
        forall|j: int| 0 <= j < s.len() ==> s[j] != c,
    ensures
        find_char(s, c) == -1,
    decreases s.len(),
{
    if s.len() != 0 {
        let t = s.subrange(1, s.len() as int);
        assert forall|j: int| 0 <= j < s.len() - 1 implies t[j] == s[j + 1] by {}
        lemma_find_char_none(t, c);
    }
}

/// The segments of `s` between occurrences of `sep`.  A segment is emitted
/// for every occurrence of `sep` (so `a;` yields `[a]` and `;;` yields
/// `[, ]`), and a final non-terminated remainder is emitted only when it is
/// nonempty; the empty sequence has no segments.
pub open spec fn split_on(s: Seq<char>, sep: char) -> Seq<Seq<char>>
    decreases s.len(),
{
    if s.len() == 0 {
        Seq::empty()
    } else {
        let i = find_char(s, sep);
        if 0 <= i < s.len() {
            seq![s.subrange(0, i)] + split_on(s.subrange(i + 1, s.len() as int), sep)
        } else {
            seq![s]
        }
    }
}

/// Each part followed by the terminator `sep`, concatenated.
pub open spec fn join_term(parts: Seq<Seq<char>>, sep: char) -> Seq<char>
    decreases parts.len(),
{
    if parts.len() == 0 {
        Seq::empty()
    } else {
        parts[0] + seq![sep] + join_term(parts.subrange(1, parts.len() as int), sep)
    }
}

/// Appending one part extends the joined text by that part and a terminator.
pub proof fn lemma_join_term_push(parts: Seq<Seq<char>>, p: Seq<char>, sep: char)
    ensures
        join_term(parts.push(p), sep) == join_term(parts, sep) + p + seq![sep],
    decreases parts.len(),
{
    if parts.len() == 0 {
        let q = parts.push(p);
        assert(q.len() == 1);
        assert(q[0] == p);
        assert(q.subrange(1, 1) =~= Seq::<Seq<char>>::empty());
        assert(join_term(q.subrange(1, 1), sep) == Seq::<char>::empty());
        assert(join_term(q, sep) == p + seq![sep] + Seq::<char>::empty());
        assert(join_term(q, sep) =~= join_term(parts, sep) + p + seq![sep]);
    } else {
        let q = parts.push(p);
        assert(q[0] == parts[0]);
        assert(q.subrange(1, q.len() as int) =~= parts.subrange(1, parts.len() as int).push(p));
        lemma_join_term_push(parts.subrange(1, parts.len() as int), p, sep);
        assert(join_term(q, sep) =~= join_term(parts, sep) + p + seq![sep]);
    }
}

/// Splitting the terminator-joined parts recovers the parts, provided no
/// part contains the separator.
pub proof fn lemma_split_join(parts: Seq<Seq<char>>, sep: char)
    requires
        forall|k: int| 0 <= k < parts.len() ==> !(#[trigger] parts[k]).contains(sep),
    ensures
        split_on(join_term(parts, sep), sep) == parts,
    decreases parts.len(),
{
    if parts.len() == 0 {
        assert(split_on(join_term(parts, sep), sep) =~= parts);
    } else {
        let p0 = parts[0];
        let rest = parts.subrange(1, parts.len() as int);
        let s = join_term(parts, sep);
        assert(s =~= p0 + seq![sep] + join_term(rest, sep));
        assert(forall|j: int| 0 <= j < p0.len() ==> s[j] == p0[j]);
        assert(s[p0.len() as int] == sep);
        assert forall|j: int| 0 <= j < p0.len() implies s[j] != sep by {
            assert(s[j] == p0[j]);
            if p0[j] == sep {
                assert(p0.contains(sep));
            }
        }
        lemma_find_char_at(s, sep, p0.len() as int);
        assert(s.subrange(0, p0.len() as int) =~= p0);
        assert(s.subrange(p0.len() as int + 1, s.len() as int) =~= join_term(rest, sep));
        lemma_split_join(rest, sep);
        assert(split_on(s, sep) =~= seq![p0] + split_on(join_term(rest, sep), sep));
        assert(split_on(s, sep) =~= parts);
    }
}

/// All characters of `s`, in order.
pub fn chars_of(s: &str) -> (r: Vec<char>)
    ensures
        r@ == s@,
{
    let n = s.unicode_len();
    let mut r: Vec<char> = Vec::new();
    let mut i: usize = 0;
    while i < n
        invariant
            i <= n,
            n == s@.len(),
            r@ == s@.subrange(0, i as int),
        decreases n - i,
    {
        let c = s.get_char(i);
        r.push(c);
        proof {
            assert(s@.subrange(0, i + 1) =~= s@.subrange(0, i as int).push(s@[i as int]));
        }
        i += 1;
    }
    proof {
        assert(s@.subrange(0, n as int) =~= s@);
    }
    r
}

/// Relies on `String`'s `FromIterator<char>` through `Iterator::collect`:
/// the collected string holds exactly the iterated characters, in order.
#[verifier::external_body]
pub fn string_from_chars(v: &Vec<char>) -> (r: String)
    ensures
        r@ == v@,
{
    v.iter().collect()
}

/// The characters of `v` from `from` (inclusive) to `to` (exclusive).
pub fn subvec(v: &Vec<char>, from: usize, to: usize) -> (r: Vec<char>)
    requires
        from <= to <= v@.len(),
    ensures
        r@ == v@.subrange(from as int, to as int),
{
    let mut r: Vec<char> = Vec::new();
    let mut i: usize = from;
    while i < to
        invariant
            from <= i <= to <= v@.len(),
            r@ == v@.subrange(from as int, i as int),
        decreases to - i,
    {
        r.push(v[i]);
        proof {
            assert(v@.subrange(from as int, i + 1) =~= v@.subrange(from as int, i as int).push(
                v@[i as int],
            ));
        }
        i += 1;
    }
    r
}

/// Whether two character vectors hold the same characters.
pub fn chars_eq(a: &Vec<char>, b: &Vec<char>) -> (r: bool)
    ensures
        r == (a@ == b@),
{
    if a.len() != b.len() {
        return false;
    }
    let mut i: usize = 0;
    while i < a.len()
        invariant
            i <= a@.len(),
            a@.len() == b@.len(),
            forall|j: int| 0 <= j < i ==> a@[j] == b@[j],
        decreases a@.len() - i,
    {
        if a[i] != b[i] {
            return false;
        }
        i += 1;
    }
    proof {
        assert(a@ =~= b@);
    }
    true
}

/// The segments of `v` between occurrences of `sep`, as `split_on` describes.
pub fn split_chars(v: &Vec<char>, sep: char) -> (r: Vec<Vec<char>>)
    ensures
        r.deep_view() == split_on(v@, sep),
{
    let mut r: Vec<Vec<char>> = Vec::new();
    let mut start: usize = 0;
    let mut i: usize = 0;
    proof {
        assert(v@.subrange(0, v@.len() as int) =~= v@);
        assert(r.deep_view() + split_on(v@.subrange(0, v@.len() as int), sep) =~= split_on(v@, sep));
    }
    while i < v.len()
        invariant
            start <= i <= v@.len(),
            forall|j: int| start <= j < i ==> v@[j] != sep,
            split_on(v@, sep) == r.deep_view() + split_on(
                v@.subrange(start as int, v@.len() as int),
                sep,
            ),
        decreases v@.len() - i,
    {
        if v[i] == sep {
            let seg = subvec(v, start, i);
            let ghost r0 = r.deep_view();
            proof {
                let tail = v@.subrange(start as int, v@.len() as int);
                assert forall|j: int| 0 <= j < i - start implies tail[j] != sep by {
                    assert(tail[j] == v@[start + j]);
                }
                assert(tail[i - start] == sep);
                lemma_find_char_at(tail, sep, i - start);
                assert(tail.subrange(0, i - start) =~= v@.subrange(start as int, i as int));
                assert(tail.subrange(i - start + 1, tail.len() as int) =~= v@.subrange(
                    i + 1,
                    v@.len() as int,
                ));
            }
            r.push(seg);
            proof {
                assert(r.deep_view() =~~= r0.push(v@.subrange(start as int, i as int)));
                assert(split_on(v@, sep) =~~= r.deep_view() + split_on(
                    v@.subrange(i + 1, v@.len() as int),
                    sep,
                ));
            }
            start = i + 1;
        }
        i += 1;
    }
    if start < v.len() {
        let seg = subvec(v, start, v.len());
        let ghost r0 = r.deep_view();
        proof {
            let tail = v@.subrange(start as int, v@.len() as int);
            assert forall|j: int| 0 <= j < tail.len() implies tail[j] != sep by {
                assert(tail[j] == v@[start + j]);
            }
            lemma_find_char_none(tail, sep);
            assert(split_on(tail, sep) =~= seq![tail]);
        }
        r.push(seg);
        proof {
            let tail = v@.subrange(start as int, v@.len() as int);
            assert(r.deep_view() =~~= r0.push(tail));
            assert(split_on(v@, sep) =~~= r.deep_view());
        }
    } else {
        proof {
            assert(v@.subrange(start as int, v@.len() as int).len() == 0);
            assert(split_on(v@, sep) =~= r.deep_view());
        }
    }
    r
}

/// Lexicographic order on character sequences, by code point; a proper
/// prefix comes before its extensions.
pub open spec fn lex_le(a: Seq<char>, b: Seq<char>) -> bool
    decreases a.len(),
{
    if a.len() == 0 {
        true
    } else if b.len() == 0 {
        false
    } else if (a[0] as int) < (b[0] as int) {
        true
    } else if (a[0] as int) > (b[0] as int) {
        false
    } else {
        lex_le(a.subrange(1, a.len() as int), b.subrange(1, b.len() as int))
    }
}

/// Strict lexicographic order.
pub open spec fn lex_lt(a: Seq<char>, b: Seq<char>) -> bool {
    lex_le(a, b) && a != b
}

/// `lex_le` is total.
pub proof fn lemma_lex_total(a: Seq<char>, b: Seq<char>)
    ensures
        lex_le(a, b) || lex_le(b, a),
    decreases a.len(),
{
    if a.len() != 0 && b.len() != 0 && (a[0] as int) == (b[0] as int) {
        assert(a[0] == b[0]);
        lemma_lex_total(a.subrange(1, a.len() as int), b.subrange(1, b.len() as int));
    }
}

/// `lex_le` in both directions only for equal sequences.
pub proof fn lemma_lex_antisym(a: Seq<char>, b: Seq<char>)
    requires
        lex_le(a, b),
        lex_le(b, a),
    ensures
        a == b,
    decreases a.len(),
{
    if a.len() == 0 {
        assert(b.len() == 0);
        assert(a =~= b);
    } else {
        assert(a[0] == b[0]);
        let at = a.subrange(1, a.len() as int);
        let bt = b.subrange(1, b.len() as int);
        lemma_lex_antisym(at, bt);
        assert forall|j: int| 0 <= j < a.len() implies a[j] == b[j] by {
            if j > 0 {
                assert(at[j - 1] == a[j]);
                assert(bt[j - 1] == b[j]);
            }
        }
        assert(a =~= b);
    }
}

/// `lex_le` is transitive.
pub proof fn lemma_lex_trans(a: Seq<char>, b: Seq<char>, c: Seq<char>)
    requires
        lex_le(a, b),
        lex_le(b, c),
    ensures
        lex_le(a, c),
    decreases a.len(),
{
    if a.len() != 0 && b.len() != 0 && c.len() != 0 {
        if a[0] == b[0] && b[0] == c[0] {
            lemma_lex_trans(
                a.subrange(1, a.len() as int),
                b.subrange(1, b.len() as int),
                c.subrange(1, c.len() as int),
            );
        }
    }
}

/// Code-point comparison of two characters.
pub fn char_lt(x: char, y: char) -> (r: bool)
    ensures
        r == ((x as int) < (y as int)),
{
    (x as u32) < (y as u32)
}

/// Characters with the same code point are the same character.
pub proof fn lemma_char_eq(x: char, y: char)
    requires
        x as int == y as int,
    ensures
        x == y,
{
}

/// Whether `a` comes no later than `b` in lexicographic order.
pub fn str_lex_le(a: &str, b: &str) -> (r: bool)
    ensures
        r == lex_le(a@, b@),
{
    let va = chars_of(a);
    let vb = chars_of(b);
    let mut i: usize = 0;
    proof {
        assert(a@.subrange(0, a@.len() as int) =~= a@);
        assert(b@.subrange(0, b@.len() as int) =~= b@);
    }
    loop
        invariant
            va@ == a@,
            vb@ == b@,
            i <= a@.len(),
            i <= b@.len(),
            forall|j: int| 0 <= j < i ==> a@[j] == b@[j],
            lex_le(a@, b@) == lex_le(
                a@.subrange(i as int, a@.len() as int),
                b@.subrange(i as int, b@.len() as int),
            ),
        decreases a@.len() - i,
    {
        let ghost sa = a@.subrange(i as int, a@.len() as int);
        let ghost sb = b@.subrange(i as int, b@.len() as int);
        if i == va.len() {
            proof {
                assert(sa.len() == 0);
                assert(lex_le(sa, sb));
            }
            return true;
        }
        if i == vb.len() {
            proof {
                assert(sb.len() == 0 && sa.len() != 0);
                assert(!lex_le(sa, sb));
            }
            return false;
        }
        let ca = va[i];
        let cb = vb[i];
        if char_lt(ca, cb) {
            proof {
                assert(sa[0] == ca && sb[0] == cb);
                assert(lex_le(sa, sb));
            }
            return true;
        }
        if char_lt(cb, ca) {
            proof {
                assert(sa[0] == ca && sb[0] == cb);
                assert(!lex_le(sa, sb));
            }
            return false;
        }
        proof {
            assert(sa[0] == ca && sb[0] == cb);
            lemma_char_eq(ca, cb);
            assert(ca == cb);
            assert(sa.subrange(1, sa.len() as int) =~= a@.subrange(i + 1, a@.len() as int));
            assert(sb.subrange(1, sb.len() as int) =~= b@.subrange(i + 1, b@.len() as int));
        }
        i += 1;
    }
}

/// The parts joined with `sep` between neighbours (no trailing separator).
pub open spec fn join_with(parts: Seq<Seq<char>>, sep: Seq<char>) -> Seq<char>
    decreases parts.len(),
{
    if parts.len() == 0 {
        Seq::empty()
    } else if parts.len() == 1 {
        parts[0]
    } else {
        join_with(parts.drop_last(), sep) + sep + parts.last()
    }
}

/// Strict lexicographic order is transitive.
pub proof fn lemma_lex_lt_trans(a: Seq<char>, b: Seq<char>, c: Seq<char>)
    requires
        lex_lt(a, b),
        lex_lt(b, c),
    ensures
        lex_lt(a, c),
{
    lemma_lex_trans(a, b, c);
    if a == c {
        lemma_lex_antisym(b, c);
    }
}

/// Of two distinct sequences, one is strictly first.
pub proof fn lemma_lex_lt_total(a: Seq<char>, b: Seq<char>)
    requires
        a != b,
    ensures
        lex_lt(a, b) || lex_lt(b, a),
{
    lemma_lex_total(a, b);
}

/// The whitespace characters recognized when selector input is trimmed.
pub open spec fn is_space(c: char) -> bool {
    c == ' ' || c == '\t' || c == '\n' || c == '\r'
}

/// `s` without leading and trailing whitespace.
pub open spec fn trimmed(s: Seq<char>) -> Seq<char> {
    trim_start_of(trim_end_spec(s))
}

/// `s` with trailing whitespace removed.
pub open spec fn trim_end_spec(s: Seq<char>) -> Seq<char>
    decreases s.len(),
{
    if s.len() != 0 && is_space(s[s.len() - 1]) {
        trim_end_spec(s.subrange(0, s.len() - 1))
    } else {
        s
    }
}

/// The characters of `s` without trailing whitespace.
pub fn trim_end_chars(v: &Vec<char>) -> (r: Vec<char>)
    ensures
        r@ == trim_end_spec(v@),
{
    let mut j: usize = v.len();
    proof {
        assert(v@.subrange(0, v@.len() as int) =~= v@);
    }
    while j > 0 && is_space_char(v[j - 1])
        invariant
            j <= v@.len(),
            trim_end_spec(v@) == trim_end_spec(v@.subrange(0, j as int)),
        decreases j,
    {
        proof {
            let cur = v@.subrange(0, j as int);
            assert(cur[j - 1] == v@[j - 1]);
            assert(cur.subrange(0, j - 1) =~= v@.subrange(0, j - 1));
        }
        j -= 1;
    }
    proof {
        if j == 0 {
            assert(v@.subrange(0, 0).len() == 0);
        } else {
            assert(v@.subrange(0, j as int)[j - 1] == v@[j - 1]);
        }
    }
    subvec(v, 0, j)
}

/// Executable form of `is_space`.
pub fn is_space_char(c: char) -> (r: bool)
    ensures
        r == is_space(c),
{
    c == ' ' || c == '\t' || c == '\n' || c == '\r'
}

/// The characters of `s` without leading or trailing whitespace.
pub fn trim_chars(v: &Vec<char>) -> (r: Vec<char>)
    ensures
        r@ == trimmed(v@),
{
    let e = trim_end_chars(v);
    let mut i: usize = 0;
    proof {
        assert(e@.subrange(0, e@.len() as int) =~= e@);
    }
    while i < e.len() && is_space_char(e[i])
        invariant
            i <= e@.len(),
            e@ == trim_end_spec(v@),
            trimmed(v@) == trim_start_of(e@.subrange(i as int, e@.len() as int)),
        decreases e@.len() - i,
    {
        proof {
            let cur = e@.subrange(i as int, e@.len() as int);
            assert(cur[0] == e@[i as int]);
            assert(cur.subrange(1, cur.len() as int) =~= e@.subrange(i + 1, e@.len() as int));
        }
        i += 1;
    }
    proof {
        let cur = e@.subrange(i as int, e@.len() as int);
        if i < e@.len() {
            assert(cur[0] == e@[i as int]);
        }
    }
    subvec(&e, i, e.len())
}

/// `s` with leading whitespace removed.
pub open spec fn trim_start_of(s: Seq<char>) -> Seq<char>
    decreases s.len(),
{
    if s.len() != 0 && is_space(s[0]) {
        trim_start_of(s.subrange(1, s.len() as int))
    } else {
        s
    }
}

} // verus!
