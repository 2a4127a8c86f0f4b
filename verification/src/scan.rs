//! The addresses of live nodes, read from a grepable network-scan report:
//! the second field of every line that mentions `Host:`.
use vstd::prelude::*;
use vstd::string::*;
use crate::text::{chars_of, contains_in_range, has_infix, is_white_space, is_whitespace, views};

verus! {

broadcast use vstd::string::group_string_axioms;

/// `s` without its leading whitespace.
pub open spec fn drop_ws(s: Seq<char>) -> Seq<char>
    decreases s.len(),
{
    if s.len() > 0 && is_white_space(s[0]) {
        drop_ws(s.drop_first())
    } else {
        s
    }
}

/// `s` without its leading run of non-whitespace characters.
pub open spec fn drop_word(s: Seq<char>) -> Seq<char>
    decreases s.len(),
{
    if s.len() > 0 && !is_white_space(s[0]) {
        drop_word(s.drop_first())
    } else {
        s
    }
}

/// The leading run of non-whitespace characters of `s`.
pub open spec fn take_word(s: Seq<char>) -> Seq<char>
    decreases s.len(),
{
    if s.len() > 0 && !is_white_space(s[0]) {
        seq![s[0]] + take_word(s.drop_first())
    } else {
        seq![]
    }
}

/// The second whitespace-separated field of `line`, if it has one.
pub open spec fn second_word(line: Seq<char>) -> Option<Seq<char>> {
    let rest = drop_ws(drop_word(drop_ws(line)));
    if rest.len() > 0 {
        Some(take_word(rest))
    } else {
        None
    }
}

/// Position of the first newline of `s`, or its length if it has none.
pub open spec fn first_nl(s: Seq<char>) -> nat
    decreases s.len(),
{
    if s.len() == 0 || s[0] == '\n' {
        0
    } else {
        1 + first_nl(s.drop_first())
    }
}

/// The newline-separated lines of `s` (a final empty segment included).
pub open spec fn lines(s: Seq<char>) -> Seq<Seq<char>>
    decreases s.len(),
{
    let k = first_nl(s);
    if k >= s.len() {
        seq![s]
    } else {
        seq![s.take(k as int)] + lines(s.skip(k + 1 as int))
    }
}

/// The address that a report line gives, if it gives one.
pub open spec fn host_of_line(line: Seq<char>) -> Seq<Seq<char>> {
    if has_infix(line, "Host:"@) {
        match second_word(line) {
            Some(w) => seq![w],
            None => seq![],
        }
    } else {
        seq![]
    }
}

/// The addresses that a list of report lines gives, in order.
pub open spec fn hosts_of_lines(ls: Seq<Seq<char>>) -> Seq<Seq<char>>
    decreases ls.len(),
{
    if ls.len() == 0 {
        seq![]
    } else {
        host_of_line(ls[0]) + hosts_of_lines(ls.drop_first())
    }
}

/// The addresses that a scan report gives, in order.
pub open spec fn active_hosts(report: Seq<char>) -> Seq<Seq<char>> {
    hosts_of_lines(lines(report))
}

proof fn lemma_first_nl_bound(s: Seq<char>)
    ensures
        first_nl(s) <= s.len(),
        first_nl(s) < s.len() ==> s[first_nl(s) as int] == '\n',
        forall|j: int| 0 <= j < first_nl(s) ==> s[j] != '\n',
    decreases s.len(),
{
    if s.len() > 0 && s[0] != '\n' {
        lemma_first_nl_bound(s.drop_first());
        assert forall|j: int| 0 <= j < first_nl(s) implies s[j] != '\n' by {
            if j > 0 {
                assert(s[j] == s.drop_first()[j - 1]);
            }
        }
    }
}

/// First position at or after `i` (and before `e`) that holds a newline, or `e`.
fn find_newline(v: &Vec<char>, i: usize, e: usize) -> (r: usize)
    requires
        i <= e <= v.len(),
    ensures
        i <= r <= e,
        forall|j: int| i <= j < r ==> v@[j] != '\n',
        r < e ==> v@[r as int] == '\n',
{
    let mut k = i;
    while k < e
        invariant
            i <= k <= e,
            e <= v.len(),
            forall|j: int| i <= j < k ==> v@[j] != '\n',
        decreases e - k,
    {
        if v[k] == '\n' {
            return k;
        }
        k = k + 1;
    }
    k
}

/// First position at or after `i` (and before `e`) that does not hold whitespace, or `e`.
fn skip_ws(v: &Vec<char>, i: usize, e: usize) -> (r: usize)
    requires
        i <= e <= v.len(),
    ensures
        i <= r <= e,
        drop_ws(v@.subrange(i as int, e as int)) == v@.subrange(r as int, e as int),
{
    let mut k = i;
    while k < e && is_whitespace(v[k])
        invariant
            i <= k <= e,
            e <= v.len(),
            drop_ws(v@.subrange(i as int, e as int)) == drop_ws(v@.subrange(k as int, e as int)),
        decreases e - k,
    {
        assert(v@.subrange(k as int, e as int).drop_first() =~= v@.subrange(k + 1, e as int));
        k = k + 1;
    }
    k
}

/// First position at or after `i` (and before `e`) that holds whitespace, or `e`.
fn skip_word(v: &Vec<char>, i: usize, e: usize) -> (r: usize)
    requires
        i <= e <= v.len(),
    ensures
        i <= r <= e,
        drop_word(v@.subrange(i as int, e as int)) == v@.subrange(r as int, e as int),
        take_word(v@.subrange(i as int, e as int)) == v@.subrange(i as int, r as int),
{
    let mut k = i;
    assert(v@.subrange(i as int, i as int) =~= Seq::<char>::empty());
    while k < e && !is_whitespace(v[k])
        invariant
            i <= k <= e,
            e <= v.len(),
            drop_word(v@.subrange(i as int, e as int)) == drop_word(v@.subrange(k as int, e as int)),
            take_word(v@.subrange(i as int, e as int)) == v@.subrange(i as int, k as int)
                + take_word(v@.subrange(k as int, e as int)),
        decreases e - k,
    {
        let ghost w = v@.subrange(k as int, e as int);
        assert(w.drop_first() =~= v@.subrange(k + 1, e as int));
        assert(v@.subrange(i as int, k as int) + seq![w[0]] =~= v@.subrange(i as int, k + 1));
        assert(take_word(w) == seq![w[0]] + take_word(w.drop_first()));
        assert(v@.subrange(i as int, k as int) + (seq![w[0]] + take_word(w.drop_first())) =~= v@.subrange(i as int, k + 1) + take_word(w.drop_first()));
        k = k + 1;
    }
    assert(take_word(v@.subrange(k as int, e as int)) =~= Seq::<char>::empty());
    assert(v@.subrange(i as int, k as int) + Seq::<char>::empty() =~= v@.subrange(i as int, k as int));
    k
}

/// The addresses that the scan report `report` gives: the second field of
/// every line that mentions `Host:`, in order.
pub fn parse_active_ips(report: &str) -> (ips: Vec<String>)
    ensures
        views(ips@) == active_hosts(report@),
{
    let v = chars_of(report);
    let host = chars_of("Host:");
    let n = v.len();
    let mut ips: Vec<String> = Vec::new();
    let mut pos: usize = 0;
    assert(v@.subrange(0, n as int) =~= v@);
    assert(views(ips@) =~= Seq::<Seq<char>>::empty());
    loop
        invariant
            pos <= n,
            n == v.len(),
            v@ == report@,
            host@ == "Host:"@,
            views(ips@) + hosts_of_lines(lines(v@.subrange(pos as int, n as int))) == active_hosts(report@),
        decreases n + 1 - pos,
    {
        let ghost rest = v@.subrange(pos as int, n as int);
        let e = find_newline(&v, pos, n);
        proof {
            lemma_first_nl_bound(rest);
            let k = first_nl(rest);
            if k < e - pos {
                assert(rest[k as int] == v@[pos + k]);
            }
            if e - pos < k {
                assert(rest[e - pos] == v@[e as int]);
            }
            assert(k == e - pos);
        }
        let ghost line = v@.subrange(pos as int, e as int);
        assert(rest.take((e - pos) as int) =~= line);
        let ghost ls = lines(rest);
        assert(ls[0] == line) by {
            if e < n {
            } else {
                assert(rest =~= line);
            }
        }
        let ghost before = views(ips@);
        if contains_in_range(&v, pos, e, &host) {
            let a0 = skip_ws(&v, pos, e);
            let a1 = skip_word(&v, a0, e);
            let b0 = skip_ws(&v, a1, e);
            let b1 = skip_word(&v, b0, e);
            if b0 < e {
                let w = String::from_str(report.substring_char(b0, b1));
                ips.push(w);
                assert(views(ips@) =~= before + seq![v@.subrange(b0 as int, b1 as int)]);
            }
        }
        assert(views(ips@) == before + host_of_line(line));
        if e == n {
            assert(ls =~= seq![line]);
            assert(hosts_of_lines(ls.drop_first()) =~= Seq::<Seq<char>>::empty());
            assert(views(ips@) =~= before + hosts_of_lines(ls));
            return ips;
        }
        assert(rest.skip((e - pos) + 1 as int) =~= v@.subrange(e + 1, n as int));
        assert(ls.drop_first() =~= lines(v@.subrange(e + 1, n as int)));
        assert(before + hosts_of_lines(ls) =~= views(ips@) + hosts_of_lines(ls.drop_first()));
        pos = e + 1;
    }
}

/// Every character of `s` is whitespace.
pub open spec fn all_white(s: Seq<char>) -> bool {
    forall|i: int| 0 <= i < s.len() ==> is_white_space(#[trigger] s[i])
}

/// No character of `s` is whitespace.
pub open spec fn no_white(s: Seq<char>) -> bool {
    forall|i: int| 0 <= i < s.len() ==> !is_white_space(#[trigger] s[i])
}

proof fn lemma_drop_ws_concat(w: Seq<char>, x: Seq<char>)
    requires
        all_white(w),
        x.len() == 0 || !is_white_space(x[0]),
    ensures
        drop_ws(w + x) == x,
    decreases w.len(),
{
    if w.len() == 0 {
        assert(w + x =~= x);
    } else {
        assert((w + x).drop_first() =~= w.drop_first() + x);
        assert((w + x)[0] == w[0]);
        lemma_drop_ws_concat(w.drop_first(), x);
    }
}

proof fn lemma_word_concat(w: Seq<char>, x: Seq<char>)
    requires
        no_white(w),
        x.len() == 0 || is_white_space(x[0]),
    ensures
        drop_word(w + x) == x,
        take_word(w + x) == w,
    decreases w.len(),
{
    if w.len() == 0 {
        assert(w + x =~= x);
    } else {
        assert((w + x).drop_first() =~= w.drop_first() + x);
        assert((w + x)[0] == w[0]);
        lemma_word_concat(w.drop_first(), x);
        assert(seq![w[0]] + w.drop_first() =~= w);
    }
}

/// A line's second field is the second run of non-whitespace characters:
/// for a line made of optional whitespace, a first word, whitespace, a
/// second word, and then the end or more text after whitespace, it is the
/// second word.
pub proof fn lemma_second_word_meaning(
    ws1: Seq<char>,
    w1: Seq<char>,
    ws2: Seq<char>,
    w2: Seq<char>,
    rest: Seq<char>,
)
    requires
        all_white(ws1),
        w1.len() > 0 && no_white(w1),
        ws2.len() > 0 && all_white(ws2),
        w2.len() > 0 && no_white(w2),
        rest.len() == 0 || is_white_space(rest[0]),
    ensures
        second_word(ws1 + w1 + ws2 + w2 + rest) == Some(w2),
{
    let line = ws1 + w1 + ws2 + w2 + rest;
    let after1 = w1 + (ws2 + w2 + rest);
    assert(line =~= ws1 + after1);
    lemma_drop_ws_concat(ws1, after1);
    lemma_word_concat(w1, ws2 + w2 + rest);
    lemma_drop_ws_concat(ws2, w2 + rest);
    lemma_word_concat(w2, rest);
    assert(ws2 + w2 + rest =~= ws2 + (w2 + rest));
}

/// A line with at most one field has no second field.
pub proof fn lemma_single_word_line(ws1: Seq<char>, w1: Seq<char>, ws2: Seq<char>)
    requires
        all_white(ws1),
        no_white(w1),
        all_white(ws2),
    ensures
        second_word(ws1 + w1 + ws2) is None,
{
    let line = ws1 + w1 + ws2;
    if w1.len() > 0 {
        lemma_drop_ws_concat(ws1, w1 + ws2);
        assert(line =~= ws1 + (w1 + ws2));
        if ws2.len() > 0 {
            lemma_word_concat(w1, ws2);
        } else {
            assert(w1 + ws2 =~= w1 + Seq::<char>::empty());
            lemma_word_concat(w1, Seq::<char>::empty());
        }
        assert(ws2 + Seq::<char>::empty() =~= ws2);
        lemma_drop_ws_concat(ws2, Seq::<char>::empty());
    } else {
        assert(line =~= (ws1 + ws2) + Seq::<char>::empty());
        assert forall|i: int| 0 <= i < (ws1 + ws2).len() implies is_white_space(#[trigger] (ws1 + ws2)[i]) by {
            if i < ws1.len() {
                assert((ws1 + ws2)[i] == ws1[i]);
            } else {
                assert((ws1 + ws2)[i] == ws2[i - ws1.len()]);
            }
        }
        lemma_drop_ws_concat(ws1 + ws2, Seq::<char>::empty());
        assert(drop_word(Seq::<char>::empty()) == Seq::<char>::empty());
        assert(drop_ws(Seq::<char>::empty()) == Seq::<char>::empty());
    }
}

} // verus!
