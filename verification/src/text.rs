//! Character-level text primitives: containment, whitespace, lexicographic
//! order, replacement, and the lowercase mapping of std.
use vstd::prelude::*;
use vstd::std_specs::iter::IteratorSpec;
use vstd::string::*;

verus! {

broadcast use vstd::string::group_string_axioms;

// ---------------------------------------------------------------------------
// Specifications
// ---------------------------------------------------------------------------

/// `t` occurs in `s` starting at position `i`.
pub open spec fn infix_at(s: Seq<char>, t: Seq<char>, i: int) -> bool {
    0 <= i && i + t.len() <= s.len() && s.subrange(i, i + t.len()) == t
}

/// `t` occurs somewhere in `s` (the empty sequence occurs everywhere).
pub open spec fn has_infix(s: Seq<char>, t: Seq<char>) -> bool {
    exists|i: int| infix_at(s, t, i)
}

/// The Unicode `White_Space` property, as listed in PropList.txt.
pub open spec fn is_white_space(c: char) -> bool {
    let u = c as u32;
    ||| 0x09 <= u <= 0x0D
    ||| u == 0x20
    ||| u == 0x85
    ||| u == 0xA0
    ||| u == 0x1680
    ||| 0x2000 <= u <= 0x200A
    ||| u == 0x2028
    ||| u == 0x2029
    ||| u == 0x202F
    ||| u == 0x205F
    ||| u == 0x3000
}

/// Strict lexicographic order on character sequences, comparing code points.
/// This is the order of `String`'s `Ord`, since UTF-8 preserves code-point order.
pub open spec fn seq_lt(a: Seq<char>, b: Seq<char>) -> bool
    decreases a.len(),
{
    if a.len() == 0 {
        b.len() > 0
    } else if b.len() == 0 {
        false
    } else if a[0] < b[0] {
        true
    } else if a[0] == b[0] {
        seq_lt(a.drop_first(), b.drop_first())
    } else {
        false
    }
}

/// `to` before, between and after the characters of `s`: what replacing the
/// empty pattern gives.
pub open spec fn interleave(s: Seq<char>, to: Seq<char>) -> Seq<char>
    decreases s.len(),
{
    if s.len() == 0 {
        to
    } else {
        to + seq![s[0]] + interleave(s.drop_first(), to)
    }
}

/// Every non-overlapping occurrence of `from` in `s`, found left to right,
/// replaced by `to`; the empty pattern occurs before, between and after
/// the characters.
pub open spec fn replace_spec(s: Seq<char>, from: Seq<char>, to: Seq<char>) -> Seq<char>
    decreases s.len(),
{
    if from.len() == 0 {
        interleave(s, to)
    } else if s.len() < from.len() {
        s
    } else if s.subrange(0, from.len() as int) == from {
        to + replace_spec(s.subrange(from.len() as int, s.len() as int), from, to)
    } else {
        seq![s[0]] + replace_spec(s.subrange(1, s.len() as int), from, to)
    }
}

/// The characters of each string.
pub open spec fn views(s: Seq<String>) -> Seq<Seq<char>> {
    s.map_values(|x: String| x@)
}

/// Strictly increasing in the order of `seq_lt`, hence free of repetitions.
pub open spec fn strictly_sorted(s: Seq<Seq<char>>) -> bool {
    forall|i: int, j: int| 0 <= i < j < s.len() ==> seq_lt(#[trigger] s[i], #[trigger] s[j])
}

/// What std's `str::to_lowercase` returns for a string with the given characters.
pub uninterp spec fn lowercase(s: Seq<char>) -> Seq<char>;

// ---------------------------------------------------------------------------
// Lemmas on the lexicographic order
// ---------------------------------------------------------------------------

pub proof fn lemma_seq_lt_irreflexive(a: Seq<char>)
    ensures
        !seq_lt(a, a),
    decreases a.len(),
{
    if a.len() > 0 {
        lemma_seq_lt_irreflexive(a.drop_first());
    }
}

pub proof fn lemma_seq_lt_transitive(a: Seq<char>, b: Seq<char>, c: Seq<char>)
    requires
        seq_lt(a, b),
        seq_lt(b, c),
    ensures
        seq_lt(a, c),
    decreases a.len(),
{
    if a.len() > 0 && b.len() > 0 && c.len() > 0 && a[0] == b[0] && b[0] == c[0] {
        lemma_seq_lt_transitive(a.drop_first(), b.drop_first(), c.drop_first());
    }
}

pub proof fn lemma_seq_lt_total(a: Seq<char>, b: Seq<char>)
    ensures
        a == b || seq_lt(a, b) || seq_lt(b, a),
    decreases a.len(),
{
    if a.len() > 0 && b.len() > 0 && a[0] == b[0] {
        lemma_seq_lt_total(a.drop_first(), b.drop_first());
        if a.drop_first() == b.drop_first() {
            assert(a =~= seq![a[0]] + a.drop_first());
            assert(b =~= seq![b[0]] + b.drop_first());
        }
    } else if a.len() == 0 && b.len() == 0 {
        assert(a =~= b);
    }
}

pub proof fn lemma_seq_lt_asymmetric(a: Seq<char>, b: Seq<char>)
    requires
        seq_lt(a, b),
    ensures
        !seq_lt(b, a),
{
    if seq_lt(b, a) {
        lemma_seq_lt_transitive(a, b, a);
        lemma_seq_lt_irreflexive(a);
    }
}

/// A strictly sorted sequence holds no element twice.
pub proof fn lemma_strictly_sorted_no_repeats(s: Seq<Seq<char>>)
    requires
        strictly_sorted(s),
    ensures
        forall|i: int, j: int| 0 <= i < j < s.len() ==> #[trigger] s[i] != #[trigger] s[j],
{
    assert forall|i: int, j: int| 0 <= i < j < s.len() implies #[trigger] s[i] != #[trigger] s[j] by {
        if s[i] == s[j] {
            lemma_seq_lt_irreflexive(s[i]);
        }
    }
}

/// The order of strings is the dictionary order on code points: a proper
/// prefix comes first, and otherwise the first differing character decides.
pub proof fn lemma_seq_lt_meaning(a: Seq<char>, b: Seq<char>, k: int)
    requires
        0 <= k <= a.len(),
        k <= b.len(),
        a.subrange(0, k) == b.subrange(0, k),
    ensures
        k == a.len() && k < b.len() ==> seq_lt(a, b),
        k == a.len() && k == b.len() ==> !seq_lt(a, b),
        k < a.len() && k < b.len() && a[k] < b[k] ==> seq_lt(a, b),
        k < a.len() && k < b.len() && b[k] < a[k] ==> !seq_lt(a, b),
    decreases k,
{
    if k > 0 {
        assert(a[0] == a.subrange(0, k)[0]);
        assert(b[0] == b.subrange(0, k)[0]);
        assert(a.drop_first().subrange(0, k - 1) =~= a.subrange(0, k).drop_first());
        assert(b.drop_first().subrange(0, k - 1) =~= b.subrange(0, k).drop_first());
        lemma_seq_lt_meaning(a.drop_first(), b.drop_first(), k - 1);
    }
}

/// Replacing a non-empty pattern that does not occur leaves the text as it is.
pub proof fn lemma_replace_absent(s: Seq<char>, from: Seq<char>, to: Seq<char>)
    requires
        from.len() > 0,
        !has_infix(s, from),
    ensures
        replace_spec(s, from, to) == s,
    decreases s.len(),
{
    if s.len() >= from.len() {
        assert(!infix_at(s, from, 0));
        let t = s.subrange(1, s.len() as int);
        assert forall|i: int| !infix_at(t, from, i) by {
            if infix_at(t, from, i) {
                assert(s.subrange(i + 1, i + 1 + from.len()) =~= t.subrange(i, i + from.len()));
                assert(infix_at(s, from, i + 1));
            }
        }
        lemma_replace_absent(t, from, to);
        assert(seq![s[0]] + t =~= s);
    }
}

/// Replacing a pattern puts `to` where the pattern stood at the start of the
/// text, and keeps a first character that does not start the pattern.
pub proof fn lemma_replace_start(s: Seq<char>, from: Seq<char>, to: Seq<char>)
    requires
        from.len() > 0,
        s.len() > 0,
    ensures
        infix_at(s, from, 0) ==> replace_spec(s, from, to) == to + replace_spec(
            s.subrange(from.len() as int, s.len() as int),
            from,
            to,
        ),
        !infix_at(s, from, 0) ==> replace_spec(s, from, to)[0] == s[0],
{
    if !infix_at(s, from, 0) && s.len() >= from.len() {
        assert((seq![s[0]] + replace_spec(s.subrange(1, s.len() as int), from, to))[0] == s[0]);
    }
}

// ---------------------------------------------------------------------------
// Executable primitives
// ---------------------------------------------------------------------------

/// The characters of `s`, in order.
pub fn chars_of(s: &str) -> (v: Vec<char>)
    ensures
        v@ == s@,
{
    let mut v: Vec<char> = Vec::new();
    let mut it = s.chars();
    loop
        invariant
            v@ + it.remaining() == s@,
            it.obeys_prophetic_iter_laws(),
            it.decrease() is Some,
        decreases it.decrease()->0,
    {
        match it.next() {
            Some(c) => {
                v.push(c);
            },
            None => {
                return v;
            },
        }
    }
}

/// Whether `pat` occurs in `v` at position `i`.
pub fn matches_at(v: &Vec<char>, pat: &Vec<char>, i: usize) -> (r: bool)
    ensures
        r == infix_at(v@, pat@, i as int),
{
    if i > v.len() || pat.len() > v.len() - i {
        return false;
    }
    let mut k: usize = 0;
    while k < pat.len()
        invariant
            i + pat.len() <= v.len(),
            k <= pat.len(),
            forall|j: int| 0 <= j < k ==> v@[i + j] == pat@[j],
        decreases pat.len() - k,
    {
        if v[i + k] != pat[k] {
            assert(v@.subrange(i as int, i + pat.len())[k as int] != pat@[k as int]);
            return false;
        }
        k = k + 1;
    }
    assert(v@.subrange(i as int, i + pat.len()) =~= pat@);
    true
}

/// Whether `pat` occurs in `v` between positions `lo` and `hi`.
pub fn contains_in_range(v: &Vec<char>, lo: usize, hi: usize, pat: &Vec<char>) -> (r: bool)
    requires
        lo <= hi <= v.len(),
    ensures
        r == has_infix(v@.subrange(lo as int, hi as int), pat@),
{
    let ghost w = v@.subrange(lo as int, hi as int);
    if pat.len() > hi - lo {
        assert forall|j: int| !infix_at(w, pat@, j) by {}
        return false;
    }
    let last = hi - pat.len();
    let mut i: usize = lo;
    loop
        invariant
            lo <= i <= last,
            last + pat.len() == hi,
            hi <= v.len(),
            w == v@.subrange(lo as int, hi as int),
            forall|j: int| 0 <= j < i - lo ==> !infix_at(w, pat@, j),
        decreases last - i,
    {
        let m = matches_at(v, pat, i);
        assert(w.subrange(i - lo, i - lo + pat.len()) =~= v@.subrange(i as int, i + pat.len()));
        if m {
            assert(infix_at(w, pat@, i - lo));
            return true;
        }
        if i == last {
            assert forall|j: int| !infix_at(w, pat@, j) by {
                if 0 <= j && j + pat.len() <= w.len() {
                    assert(j <= i - lo);
                }
            }
            return false;
        }
        i = i + 1;
    }
}

/// Whether `pat` occurs in `s`, as std's `str::contains` with a string pattern.
pub fn str_contains(s: &str, pat: &str) -> (r: bool)
    ensures
        r == has_infix(s@, pat@),
{
    let v = chars_of(s);
    let p = chars_of(pat);
    assert(v@.subrange(0, v@.len() as int) =~= v@);
    contains_in_range(&v, 0, v.len(), &p)
}

/// Whether two strings hold the same characters.
pub fn str_eq(a: &str, b: &str) -> (r: bool)
    ensures
        r == (a@ == b@),
{
    let x = String::from_str(a);
    let y = String::from_str(b);
    x == y
}

/// The Unicode `White_Space` property, as std's `char::is_whitespace`.
pub fn is_whitespace(c: char) -> (r: bool)
    ensures
        r == is_white_space(c),
{
    let u = c as u32;
    (0x09 <= u && u <= 0x0D) || u == 0x20 || u == 0x85 || u == 0xA0 || u == 0x1680 || (0x2000
        <= u && u <= 0x200A) || u == 0x2028 || u == 0x2029 || u == 0x202F || u == 0x205F || u
        == 0x3000
}

/// Whether `a` comes strictly before `b`, as std's order on strings.
pub fn str_lt(a: &str, b: &str) -> (r: bool)
    ensures
        r == seq_lt(a@, b@),
{
    let x = chars_of(a);
    let y = chars_of(b);
    let mut i: usize = 0;
    assert(x@.subrange(0, x@.len() as int) =~= x@);
    assert(y@.subrange(0, y@.len() as int) =~= y@);
    while i < x.len() && i < y.len()
        invariant
            i <= x.len(),
            i <= y.len(),
            seq_lt(a@, b@) == seq_lt(
                x@.subrange(i as int, x@.len() as int),
                y@.subrange(i as int, y@.len() as int),
            ),
            x@ == a@,
            y@ == b@,
        decreases x.len() - i,
    {
        let ghost xs = x@.subrange(i as int, x@.len() as int);
        let ghost ys = y@.subrange(i as int, y@.len() as int);
        assert(xs[0] == x@[i as int]);
        assert(ys[0] == y@[i as int]);
        if x[i] < y[i] {
            return true;
        }
        if x[i] != y[i] {
            return false;
        }
        assert(xs.drop_first() =~= x@.subrange(i + 1, x@.len() as int));
        assert(ys.drop_first() =~= y@.subrange(i + 1, y@.len() as int));
        i = i + 1;
    }
    x.len() < y.len()
}

/// Inserts `x` into the strictly sorted `v`, unless it is already there.
pub fn insert_sorted(v: &mut Vec<String>, x: String)
    requires
        strictly_sorted(views(old(v)@)),
    ensures
        strictly_sorted(views(final(v)@)),
        forall|s: Seq<char>|
            #[trigger] views(final(v)@).contains(s) <==> views(old(v)@).contains(s) || s == x@,
{
    let ghost old_v = views(v@);
    let mut k: usize = 0;
    while k < v.len()
        invariant
            k <= v.len(),
            views(v@) == old_v,
            strictly_sorted(old_v),
            forall|j: int| 0 <= j < k ==> seq_lt(#[trigger] old_v[j], x@),
        ensures
            k <= v.len(),
            views(v@) == old_v,
            forall|j: int| 0 <= j < k ==> seq_lt(#[trigger] old_v[j], x@),
            k < v.len() ==> !seq_lt(old_v[k as int], x@),
        decreases v.len() - k,
    {
        if !str_lt(v[k].as_str(), x.as_str()) {
            break;
        }
        k = k + 1;
    }
    if k < v.len() && v[k] == x {
        assert(old_v[k as int] == x@);
        return;
    }
    proof {
        if k < v.len() {
            lemma_seq_lt_total(old_v[k as int], x@);
            assert(seq_lt(x@, old_v[k as int]));
        }
    }
    v.insert(k, x);
    let ghost nv = views(v@);
    assert(nv =~= old_v.insert(k as int, x@));
    assert forall|i: int, j: int| 0 <= i < j < nv.len() implies seq_lt(
        #[trigger] nv[i],
        #[trigger] nv[j],
    ) by {
        if j < k {
        } else if i < k && j == k {
        } else if i < k {
            assert(nv[j] == old_v[j - 1]);
            if j - 1 > k {
                lemma_seq_lt_transitive(x@, old_v[k as int], old_v[j - 1]);
            }
            lemma_seq_lt_transitive(nv[i], x@, nv[j]);
        } else if i == k {
            if j > k + 1 {
                lemma_seq_lt_transitive(x@, old_v[k as int], nv[j]);
            }
        } else {
            assert(nv[i] == old_v[i - 1]);
            assert(nv[j] == old_v[j - 1]);
        }
    }
    assert forall|s: Seq<char>| #[trigger] nv.contains(s) <==> old_v.contains(s) || s == x@ by {
        if nv.contains(s) {
            let i = choose|i: int| 0 <= i < nv.len() && nv[i] == s;
            if i < k {
                assert(old_v[i] == s);
            } else if i > k {
                assert(old_v[i - 1] == s);
            }
        }
        if old_v.contains(s) {
            let i = choose|i: int| 0 <= i < old_v.len() && old_v[i] == s;
            if i < k {
                assert(nv[i] == s);
            } else {
                assert(nv[i + 1] == s);
            }
        }
        if s == x@ {
            assert(nv[k as int] == s);
        }
    }
}

/// `to` before, between and after the characters of `s`.
fn interleave_all(s: &str, to: &str) -> (r: String)
    ensures
        r@ == interleave(s@, to@),
{
    let n = s.unicode_len();
    let mut out = String::new();
    let mut i: usize = 0;
    assert(s@.subrange(0, n as int) =~= s@);
    while i < n
        invariant
            i <= n,
            n == s@.len(),
            out@ + interleave(s@.subrange(i as int, n as int), to@) == interleave(s@, to@),
        decreases n - i,
    {
        let ghost rest = s@.subrange(i as int, n as int);
        assert(rest.drop_first() =~= s@.subrange(i + 1, n as int));
        let piece = s.substring_char(i, i + 1);
        assert(piece@ =~= seq![rest[0]]);
        let ghost before = out@;
        out.append(to);
        out.append(piece);
        assert(out@ + interleave(rest.drop_first(), to@) =~= before + interleave(rest, to@));
        i = i + 1;
    }
    assert(s@.subrange(n as int, n as int) =~= Seq::<char>::empty());
    out.append(to);
    out
}

/// `s` with every occurrence of `from` replaced by `to`, as std's `str::replace`.
pub fn replace_all(s: &str, from: &str, to: &str) -> (r: String)
    ensures
        r@ == replace_spec(s@, from@, to@),
{
    if from.is_empty() {
        return interleave_all(s, to);
    }
    let v = chars_of(s);
    let f = chars_of(from);
    let n = v.len();
    let m = f.len();
    let mut out = String::new();
    let mut start: usize = 0;
    let mut i: usize = 0;
    assert(v@.subrange(0, n as int) =~= v@);
    assert(v@.subrange(0, 0) =~= Seq::<char>::empty());
    assert(out@ =~= Seq::<char>::empty());
    while i < n && m <= n - i
        invariant
            v@ == s@,
            f@ == from@,
            n == v.len(),
            m == f.len(),
            m > 0,
            start <= i <= n,
            out@ + v@.subrange(start as int, i as int) + replace_spec(
                v@.subrange(i as int, n as int),
                f@,
                to@,
            ) == replace_spec(s@, from@, to@),
        decreases n - i,
    {
        let ghost rest = v@.subrange(i as int, n as int);
        assert(rest.subrange(0, m as int) =~= v@.subrange(i as int, i + m));
        if matches_at(&v, &f, i) {
            assert(rest.subrange(m as int, rest.len() as int) =~= v@.subrange(i + m, n as int));
            out.append(s.substring_char(start, i));
            out.append(to);
            i = i + m;
            start = i;
            assert(v@.subrange(start as int, i as int) =~= Seq::<char>::empty());
        } else {
            assert(rest.subrange(1, rest.len() as int) =~= v@.subrange(i + 1, n as int));
            assert(v@.subrange(start as int, i as int) + seq![rest[0]] =~= v@.subrange(
                start as int,
                i + 1,
            ));
            i = i + 1;
        }
    }
    assert(replace_spec(v@.subrange(i as int, n as int), f@, to@) == v@.subrange(
        i as int,
        n as int,
    ));
    assert(v@.subrange(start as int, i as int) + v@.subrange(i as int, n as int) =~= v@.subrange(
        start as int,
        n as int,
    ));
    out.append(s.substring_char(start, n));
    out
}

/// std's `str::to_lowercase`: the result is named by `lowercase` and not
/// described further (it follows the Unicode case tables).
#[verifier::external_body]
pub(crate) fn to_lowercase(s: &str) -> (r: String)
    ensures
        r@ == lowercase(s@),
{
    s.to_lowercase()
}

} // verus!
