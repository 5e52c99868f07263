//! Directive expansion: each `<!--#echo ... -->` comment in a source text is
//! replaced by the value that a mapping gives to the name it carries.
use vstd::prelude::*;
use vstd::std_specs::iter::IteratorSpec;

verus! {

/// The sequence that opens a directive.
pub open spec fn marker() -> Seq<char> {
    seq!['<', '!', '-', '-', '#', 'e', 'c', 'h', 'o']
}

/// The sequence that closes a directive.
pub open spec fn terminator() -> Seq<char> {
    seq!['-', '-', '>']
}

/// `pat` occurs in `s` at index `i`.
pub open spec fn occurs_at(s: Seq<char>, pat: Seq<char>, i: int) -> bool {
    0 <= i && i + pat.len() <= s.len() && s.subrange(i, i + pat.len()) == pat
}

/// The first index at or after `start` where `pat` occurs in `s`.
pub open spec fn first_match(s: Seq<char>, pat: Seq<char>, start: int) -> Option<int>
    decreases s.len() + 1 - start,
{
    if start < 0 || start + pat.len() > s.len() {
        None
    } else if occurs_at(s, pat, start) {
        Some(start)
    } else {
        first_match(s, pat, start + 1)
    }
}

/// The characters that Unicode classes as white space.
pub open spec fn is_space(c: char) -> bool {
    let u = c as u32;
    (9 <= u && u <= 13) || u == 32 || u == 0x85 || u == 0xa0 || u == 0x1680 || (0x2000 <= u
        && u <= 0x200a) || u == 0x2028 || u == 0x2029 || u == 0x202f || u == 0x205f || u == 0x3000
}

/// `t` without leading and trailing white space.
pub open spec fn trimmed(t: Seq<char>) -> Seq<char>
    decreases t.len(),
{
    if t.len() > 0 && is_space(t[0]) {
        trimmed(t.drop_first())
    } else if t.len() > 0 && is_space(t.last()) {
        trimmed(t.drop_last())
    } else {
        t
    }
}

/// What follows the last `=` of `t`; all of `t` if it holds none.
pub open spec fn last_piece(t: Seq<char>) -> Seq<char>
    decreases t.len(),
{
    if t.len() == 0 {
        t
    } else if t.last() == '=' {
        Seq::empty()
    } else {
        last_piece(t.drop_last()).push(t.last())
    }
}

/// `t` without one pair of surrounding double quotes, if it has them.
pub open spec fn unquoted(t: Seq<char>) -> Seq<char> {
    if t.len() >= 2 && t[0] == '"' && t.last() == '"' {
        t.subrange(1, t.len() - 1)
    } else {
        t
    }
}

/// The name that the body of a directive carries.
pub open spec fn key_of(body: Seq<char>) -> Seq<char> {
    unquoted(last_piece(trimmed(body)))
}

/// The value of the first entry of `content` named `key`; empty if none is.
pub open spec fn lookup(content: Seq<(Seq<char>, Seq<char>)>, key: Seq<char>) -> Seq<char>
    decreases content.len(),
{
    if content.len() == 0 {
        Seq::empty()
    } else if content[0].0 == key {
        content[0].1
    } else {
        lookup(content.drop_first(), key)
    }
}

/// What a directive segment becomes: the text after the opening marker, up
/// to the next marker. With a terminator, the directive gives way to its
/// value and the text after the terminator stays; without one, the segment
/// stays as it was, marker included.
pub open spec fn expand_segment(seg: Seq<char>, content: Seq<(Seq<char>, Seq<char>)>) -> Seq<char> {
    match first_match(seg, terminator(), 0) {
        Some(j) => if 0 <= j && j + 3 <= seg.len() {
            lookup(content, key_of(seg.subrange(0, j))) + seg.subrange(j + 3, seg.len() as int)
        } else {
            seg
        },
        None => marker() + seg,
    }
}

/// `s` with every directive expanded.
pub open spec fn expand(s: Seq<char>, content: Seq<(Seq<char>, Seq<char>)>) -> Seq<char>
    decreases s.len(),
{
    match first_match(s, marker(), 0) {
        None => s,
        Some(i) => {
            let rest = s.subrange(i + 9, s.len() as int);
            let seg_len = match first_match(rest, marker(), 0) {
                Some(j) => j,
                None => rest.len() as int,
            };
            if 0 <= i && i + 9 <= s.len() && 0 <= seg_len <= rest.len() {
                s.subrange(0, i) + expand_segment(rest.subrange(0, seg_len), content) + expand(
                    rest.subrange(seg_len, rest.len() as int),
                    content,
                )
            } else {
                s
            }
        },
    }
}

/// The view of a mapping given as name-value pairs.
pub open spec fn pairs_view(content: Seq<(String, String)>) -> Seq<(Seq<char>, Seq<char>)> {
    content.map_values(|p: (String, String)| (p.0@, p.1@))
}

/// The characters of `s`, in order.
fn chars_of(s: &str) -> (r: Vec<char>)
    ensures
        r@ == s@,
{
    broadcast use vstd::string::group_string_axioms;

    let mut it = s.chars();
    let mut out: Vec<char> = Vec::new();
    loop
        invariant_except_break
            out@ + it.remaining() == s@,
        invariant
            it.decrease() is Some,
        ensures
            out@ == s@,
        decreases it.decrease()->0,
    {
        match it.next() {
            Some(c) => {
                out.push(c);
            },
            None => {
                assert(out@ + Seq::<char>::empty() =~= out@);
                break;
            },
        }
    }
    out
}

/// Relies on `String`'s `FromIterator<char>`: the string made of the
/// characters of `v`, in order.
#[verifier::external_body]
fn string_of(v: &Vec<char>) -> (r: String)
    ensures
        r@ == v@,
{
    v.iter().collect()
}

fn space(c: char) -> (r: bool)
    ensures
        r == is_space(c),
{
    let u = c as u32;
    (9 <= u && u <= 13) || u == 32 || u == 0x85 || u == 0xa0 || u == 0x1680 || (0x2000 <= u
        && u <= 0x200a) || u == 0x2028 || u == 0x2029 || u == 0x202f || u == 0x205f || u == 0x3000
}

/// Where `pat` first occurs in `s[lo..hi]`, as an index of `s`.
fn find(s: &Vec<char>, lo: usize, hi: usize, pat: &Vec<char>) -> (r: Option<usize>)
    requires
        lo <= hi <= s@.len(),
    ensures
        match r {
            Some(j) => lo <= j && first_match(s@.subrange(lo as int, hi as int), pat@, 0) == Some(
                j - lo,
            ),
            None => first_match(s@.subrange(lo as int, hi as int), pat@, 0) is None,
        },
{
    let ghost sub = s@.subrange(lo as int, hi as int);
    let mut k: usize = lo;
    while k <= hi
        invariant
            lo <= k,
            lo <= hi <= s@.len(),
            sub == s@.subrange(lo as int, hi as int),
            k <= hi + 1,
            first_match(sub, pat@, 0) == first_match(sub, pat@, k - lo),
        decreases hi + 1 - k,
    {
        if pat.len() > hi - k {
            return None;
        }
        let mut t: usize = 0;
        let mut same = true;
        while t < pat.len()
            invariant
                k + pat@.len() <= hi,
                hi <= s@.len(),
                lo <= k,
                sub == s@.subrange(lo as int, hi as int),
                t <= pat@.len(),
                same == forall|m: int| 0 <= m < t ==> s@[k + m] == pat@[m],
            decreases pat@.len() - t,
        {
            if s[k + t] != pat[t] {
                same = false;
            }
            t = t + 1;
        }
        proof {
            if same {
                assert(sub.subrange(k - lo, k - lo + pat@.len()) =~= pat@);
            } else {
                let m = choose|m: int| 0 <= m < pat@.len() && s@[k + m] != pat@[m];
                assert(sub.subrange(k - lo, k - lo + pat@.len())[m] == s@[k + m]);
            }
        }
        if same {
            return Some(k);
        }
        k = k + 1;
    }
    None
}

/// Bounds of `t[lo..hi]` without its leading and trailing white space.
fn trim_bounds(t: &Vec<char>, lo: usize, hi: usize) -> (r: (usize, usize))
    requires
        lo <= hi <= t@.len(),
    ensures
        lo <= r.0 <= r.1 <= hi,
        trimmed(t@.subrange(lo as int, hi as int)) == t@.subrange(r.0 as int, r.1 as int),
{
    let mut a = lo;
    while a < hi && space(t[a])
        invariant
            lo <= a <= hi <= t@.len(),
            trimmed(t@.subrange(lo as int, hi as int)) == trimmed(t@.subrange(a as int, hi as int)),
        decreases hi - a,
    {
        assert(t@.subrange(a as int, hi as int).drop_first() =~= t@.subrange(a + 1, hi as int));
        a = a + 1;
    }
    let mut b = hi;
    while b > a && space(t[b - 1])
        invariant
            lo <= a <= b <= hi <= t@.len(),
            a < b ==> !is_space(t@[a as int]),
            trimmed(t@.subrange(lo as int, hi as int)) == trimmed(t@.subrange(a as int, b as int)),
        decreases b - a,
    {
        assert(t@.subrange(a as int, b as int).drop_last() =~= t@.subrange(a as int, b - 1));
        if b - 1 == a {
            assert(t@.subrange(a as int, b as int)[0] == t@[a as int]);
        }
        b = b - 1;
    }
    proof {
        if a < b {
            assert(t@.subrange(a as int, b as int)[0] == t@[a as int]);
            assert(t@.subrange(a as int, b as int).last() == t@[b - 1]);
        }
    }
    (a, b)
}

/// Start of what follows the last `=` of `t[lo..hi]`.
fn last_piece_start(t: &Vec<char>, lo: usize, hi: usize) -> (r: usize)
    requires
        lo <= hi <= t@.len(),
    ensures
        lo <= r <= hi,
        last_piece(t@.subrange(lo as int, hi as int)) == t@.subrange(r as int, hi as int),
{
    let mut k = hi;
    while k > lo
        invariant
            lo <= k <= hi <= t@.len(),
            last_piece(t@.subrange(lo as int, hi as int)) == last_piece(t@.subrange(lo as int, k as int)) + t@.subrange(k as int, hi as int),
        decreases k - lo,
    {
        let ghost w = t@.subrange(lo as int, k as int);
        assert(w.last() == t@[k - 1]);
        assert(w.drop_last() =~= t@.subrange(lo as int, k - 1));
        if t[k - 1] == '=' {
            assert(last_piece(w) == Seq::<char>::empty());
            assert(Seq::<char>::empty() + t@.subrange(k as int, hi as int) =~= t@.subrange(k as int, hi as int));
            return k;
        }
        assert(last_piece(w) == last_piece(w.drop_last()).push(t@[k - 1]));
        assert(last_piece(w.drop_last()).push(t@[k - 1]) + t@.subrange(k as int, hi as int) =~= last_piece(w.drop_last()) + t@.subrange(k - 1, hi as int));
        k = k - 1;
    }
    assert(t@.subrange(lo as int, lo as int).len() == 0);
    assert(Seq::<char>::empty() + t@.subrange(lo as int, hi as int) =~= t@.subrange(lo as int, hi as int));
    lo
}

/// Bounds of the name that the directive body `t[lo..hi]` carries.
fn key_bounds(t: &Vec<char>, lo: usize, hi: usize) -> (r: (usize, usize))
    requires
        lo <= hi <= t@.len(),
    ensures
        r.0 <= r.1 <= t@.len(),
        key_of(t@.subrange(lo as int, hi as int)) == t@.subrange(r.0 as int, r.1 as int),
{
    let (a, b) = trim_bounds(t, lo, hi);
    let c = last_piece_start(t, a, b);
    if b - c >= 2 && t[c] == '"' && t[b - 1] == '"' {
        let ghost w = t@.subrange(c as int, b as int);
        assert(w[0] == t@[c as int] && w.last() == t@[b - 1]);
        assert(w.subrange(1, w.len() - 1) =~= t@.subrange(c + 1, b - 1));
        (c + 1, b - 1)
    } else {
        proof {
            let w = t@.subrange(c as int, b as int);
            if w.len() >= 2 {
                assert(w[0] == t@[c as int] && w.last() == t@[b - 1]);
            }
        }
        (c, b)
    }
}

/// Whether `a` holds exactly the characters of `t[lo..hi]`.
fn same_chars(a: &Vec<char>, t: &Vec<char>, lo: usize, hi: usize) -> (r: bool)
    requires
        lo <= hi <= t@.len(),
    ensures
        r == (a@ == t@.subrange(lo as int, hi as int)),
{
    if a.len() != hi - lo {
        return false;
    }
    let mut i: usize = 0;
    while i < a.len()
        invariant
            a@.len() == hi - lo,
            lo <= hi <= t@.len(),
            i <= a@.len(),
            forall|m: int| 0 <= m < i ==> a@[m] == t@[lo + m],
        decreases a@.len() - i,
    {
        if a[i] != t[lo + i] {
            assert(t@.subrange(lo as int, hi as int)[i as int] == t@[lo + i]);
            return false;
        }
        i = i + 1;
    }
    assert(a@ =~= t@.subrange(lo as int, hi as int));
    true
}

/// The characters of the value that `content` gives to `t[lo..hi]`.
fn lookup_value(content: &Vec<(String, String)>, t: &Vec<char>, lo: usize, hi: usize) -> (r: Vec<char>)
    requires
        lo <= hi <= t@.len(),
    ensures
        r@ == lookup(pairs_view(content@), t@.subrange(lo as int, hi as int)),
{
    let ghost key = t@.subrange(lo as int, hi as int);
    let ghost v = pairs_view(content@);
    assert(v.subrange(0, v.len() as int) =~= v);
    let mut i: usize = 0;
    while i < content.len()
        invariant
            lo <= hi <= t@.len(),
            key == t@.subrange(lo as int, hi as int),
            v == pairs_view(content@),
            v.len() == content@.len(),
            i <= content@.len(),
            lookup(v, key) == lookup(v.subrange(i as int, v.len() as int), key),
        decreases content@.len() - i,
    {
        let ghost w = v.subrange(i as int, v.len() as int);
        assert(w[0] == (content@[i as int].0@, content@[i as int].1@));
        assert(w.drop_first() =~= v.subrange(i + 1, v.len() as int));
        let k = chars_of(content[i].0.as_str());
        if same_chars(&k, t, lo, hi) {
            return chars_of(content[i].1.as_str());
        }
        i = i + 1;
    }
    assert(v.subrange(i as int, v.len() as int).len() == 0);
    Vec::new()
}

/// Append `t[lo..hi]` to `out`.
fn push_range(out: &mut Vec<char>, t: &Vec<char>, lo: usize, hi: usize)
    requires
        lo <= hi <= t@.len(),
    ensures
        final(out)@ == old(out)@ + t@.subrange(lo as int, hi as int),
{
    let mut i = lo;
    while i < hi
        invariant
            lo <= i <= hi <= t@.len(),
            out@ == old(out)@ + t@.subrange(lo as int, i as int),
        decreases hi - i,
    {
        out.push(t[i]);
        assert(t@.subrange(lo as int, i + 1) =~= t@.subrange(lo as int, i as int).push(t@[i as int]));
        i = i + 1;
    }
}

/// Append all of `v` to `out`.
fn push_all(out: &mut Vec<char>, v: &Vec<char>)
    ensures
        final(out)@ == old(out)@ + v@,
{
    push_range(out, v, 0, v.len());
    assert(v@.subrange(0, v@.len() as int) =~= v@);
}

proof fn lemma_first_match_found(s: Seq<char>, pat: Seq<char>, start: int)
    requires
        first_match(s, pat, start) is Some,
    ensures
        start <= first_match(s, pat, start)->0,
        occurs_at(s, pat, first_match(s, pat, start)->0),
    decreases s.len() + 1 - start,
{
    if !(start < 0 || start + pat.len() > s.len()) && !occurs_at(s, pat, start) {
        lemma_first_match_found(s, pat, start + 1);
    }
}

proof fn lemma_expand_unfold(s: Seq<char>, cv: Seq<(Seq<char>, Seq<char>)>, i: int, e: int)
    requires
        first_match(s, marker(), 0) == Some(i),
        0 <= i,
        i + 9 <= e <= s.len(),
        first_match(s.subrange(i + 9, s.len() as int), marker(), 0) == Some(e - i - 9) || (
        first_match(s.subrange(i + 9, s.len() as int), marker(), 0) is None && e == s.len()),
    ensures
        expand(s, cv) == s.subrange(0, i) + expand_segment(s.subrange(i + 9, e), cv) + expand(
            s.subrange(e, s.len() as int),
            cv,
        ),
{
    let rest = s.subrange(i + 9, s.len() as int);
    assert(rest.subrange(0, e - i - 9) =~= s.subrange(i + 9, e));
    assert(rest.subrange(e - i - 9, rest.len() as int) =~= s.subrange(e, s.len() as int));
}

/// Append to `out` what the directive segment `s[lo..hi]` expands to.
fn emit_segment(
    out: &mut Vec<char>,
    s: &Vec<char>,
    lo: usize,
    hi: usize,
    content: &Vec<(String, String)>,
    mark: &Vec<char>,
    term: &Vec<char>,
)
    requires
        lo <= hi <= s@.len(),
        mark@ == marker(),
        term@ == terminator(),
    ensures
        final(out)@ == old(out)@ + expand_segment(s@.subrange(lo as int, hi as int), pairs_view(content@)),
{
    let ghost seg = s@.subrange(lo as int, hi as int);
    match find(s, lo, hi, term) {
        Some(j) => {
            proof {
                lemma_first_match_found(seg, terminator(), 0);
            }
            let (ka, kb) = key_bounds(s, lo, j);
            let val = lookup_value(content, s, ka, kb);
            push_all(out, &val);
            push_range(out, s, j + 3, hi);
            assert(seg.subrange(0, j - lo) =~= s@.subrange(lo as int, j as int));
            assert(seg.subrange(j - lo + 3, seg.len() as int) =~= s@.subrange(j + 3, hi as int));
        },
        None => {
            push_all(out, mark);
            push_range(out, s, lo, hi);
        },
    }
}

/// Expand every directive of `source`: each `<!--#echo ... -->` comment
/// gives way to the value that `content` gives to the name it carries (the
/// text after its last `=`, trimmed, without surrounding double quotes), or
/// to nothing if `content` has no such name. An opening marker without a
/// terminator before the next marker is left as it stands; text outside
/// directives is kept.
pub fn inject(source: &str, content: &Vec<(String, String)>) -> (r: String)
    ensures
        r@ == expand(source@, pairs_view(content@)),
{
    let ghost cv = pairs_view(content@);
    let s = chars_of(source);
    let n = s.len();
    let mark: Vec<char> = vec!['<', '!', '-', '-', '#', 'e', 'c', 'h', 'o'];
    let term: Vec<char> = vec!['-', '-', '>'];
    assert(mark@ =~= marker());
    assert(term@ =~= terminator());
    let mut out: Vec<char> = Vec::new();
    let mut pos: usize = 0;
    assert(s@.subrange(0, n as int) =~= s@);
    loop
        invariant_except_break
            out@ + expand(s@.subrange(pos as int, n as int), cv) == expand(s@, cv),
        invariant
            n == s@.len(),
            s@ == source@,
            mark@ == marker(),
            term@ == terminator(),
            cv == pairs_view(content@),
            pos <= n,
        ensures
            out@ == expand(s@, cv),
        decreases n - pos,
    {
        let ghost sub = s@.subrange(pos as int, n as int);
        match find(&s, pos, n, &mark) {
            None => {
                push_range(&mut out, &s, pos, n);
                assert(expand(sub, cv) == sub);
                break;
            },
            Some(i) => {
                proof {
                    lemma_first_match_found(sub, marker(), 0);
                }
                let r0 = i + 9;
                push_range(&mut out, &s, pos, i);
                let ghost rest = sub.subrange(i - pos + 9, sub.len() as int);
                assert(rest =~= s@.subrange(r0 as int, n as int));
                let seg_end = match find(&s, r0, n, &mark) {
                    Some(j) => {
                        proof {
                            lemma_first_match_found(rest, marker(), 0);
                        }
                        j
                    },
                    None => n,
                };
                emit_segment(&mut out, &s, r0, seg_end, content, &mark, &term);
                proof {
                    lemma_expand_unfold(sub, cv, i - pos, seg_end - pos);
                    assert(sub.subrange(0, i - pos) =~= s@.subrange(pos as int, i as int));
                    assert(sub.subrange(i - pos + 9, seg_end - pos) =~= s@.subrange(r0 as int, seg_end as int));
                    assert(sub.subrange(seg_end - pos, sub.len() as int) =~= s@.subrange(seg_end as int, n as int));
                }
                pos = seg_end;
            },
        }
    }
    string_of(&out)
}

proof fn lemma_first_match_none(s: Seq<char>, pat: Seq<char>, start: int)
    requires
        forall|i: int| !occurs_at(s, pat, i),
    ensures
        first_match(s, pat, start) is None,
    decreases s.len() + 1 - start,
{
    if !(start < 0 || start + pat.len() > s.len()) {
        assert(!occurs_at(s, pat, start));
        lemma_first_match_none(s, pat, start + 1);
    }
}

proof fn lemma_first_match_at(s: Seq<char>, pat: Seq<char>, start: int, k: int)
    requires
        0 <= start <= k,
        occurs_at(s, pat, k),
        forall|i: int| start <= i < k ==> !occurs_at(s, pat, i),
    ensures
        first_match(s, pat, start) == Some(k),
    decreases k - start,
{
    if start < k {
        assert(!occurs_at(s, pat, start));
        lemma_first_match_at(s, pat, start + 1, k);
    }
}

/// A text in which no directive opens comes back unchanged, so that
/// expanding it again changes nothing either.
pub proof fn lemma_expand_without_directives(s: Seq<char>, content: Seq<(Seq<char>, Seq<char>)>)
    requires
        forall|i: int| !occurs_at(s, marker(), i),
    ensures
        expand(s, content) == s,
        expand(expand(s, content), content) == expand(s, content),
{
    lemma_first_match_none(s, marker(), 0);
}

/// A terminated directive gives way to the value of the name it carries,
/// and the text after its terminator is kept.
pub proof fn lemma_directive_replaced(body: Seq<char>, after: Seq<char>, content: Seq<(Seq<char>, Seq<char>)>)
    requires
        forall|i: int| !occurs_at(body, terminator(), i),
    ensures
        expand_segment(body + terminator() + after, content) == lookup(content, key_of(body)) + after,
{
    let seg = body + terminator() + after;
    let b = body.len() as int;
    assert(seg[b] == '-' && seg[b + 1] == '-' && seg[b + 2] == '>');
    assert(seg.subrange(b, b + 3) =~= terminator());
    assert forall|i: int| 0 <= i < b implies !occurs_at(seg, terminator(), i) by {
        if i + 3 <= b {
            assert(seg.subrange(i, i + 3) =~= body.subrange(i, i + 3));
            assert(!occurs_at(body, terminator(), i));
        } else if occurs_at(seg, terminator(), i) {
            assert(seg.subrange(i, i + 3)[2] == seg[i + 2]);
            assert(terminator()[2] == '>');
        }
    }
    lemma_first_match_at(seg, terminator(), 0, b);
    assert(seg.subrange(0, b) =~= body);
    assert(seg.subrange(b + 3, seg.len() as int) =~= after);
}

/// A name that some entry of a mapping without repeated names carries
/// looks up that entry's value.
pub proof fn lemma_lookup_present(content: Seq<(Seq<char>, Seq<char>)>, k: int)
    requires
        0 <= k < content.len(),
        forall|i: int, j: int| 0 <= i < j < content.len() ==> content[i].0 != content[j].0,
    ensures
        lookup(content, content[k].0) == content[k].1,
    decreases content.len(),
{
    if k > 0 {
        let rest = content.drop_first();
        assert(content[0].0 != content[k].0);
        assert(rest[k - 1] == content[k]);
        assert forall|i: int, j: int| 0 <= i < j < rest.len() implies rest[i].0 != rest[j].0 by {
            assert(rest[i] == content[i + 1] && rest[j] == content[j + 1]);
        }
        lemma_lookup_present(rest, k - 1);
    }
}

/// A name that no entry carries looks up the empty text.
pub proof fn lemma_lookup_absent(content: Seq<(Seq<char>, Seq<char>)>, key: Seq<char>)
    requires
        forall|i: int| 0 <= i < content.len() ==> content[i].0 != key,
    ensures
        lookup(content, key) == Seq::<char>::empty(),
    decreases content.len(),
{
    if content.len() > 0 {
        assert(content[0].0 != key);
        let rest = content.drop_first();
        assert forall|i: int| 0 <= i < rest.len() implies rest[i].0 != key by {
            assert(rest[i] == content[i + 1]);
        }
        lemma_lookup_absent(rest, key);
    }
}

proof fn lemma_marker_chars()
    ensures
        marker().len() == 9,
        marker()[0] == '<',
        forall|k: int| 1 <= k < 9 ==> marker()[k] != '<' && marker()[k] != '>',
        marker()[8] == 'o',
        terminator().len() == 3,
        terminator()[0] == '-' && terminator()[1] == '-' && terminator()[2] == '>',
{
    let m = marker();
    assert(m[1] == '!' && m[2] == '-' && m[3] == '-' && m[4] == '#' && m[5] == 'e' && m[6] == 'c'
        && m[7] == 'h' && m[8] == 'o');
}

/// One directive, then text in which no directive opens, then the rest of
/// the source (empty, or starting with the next directive): the directive
/// gives way to its value and the text after it is kept.
#[verifier::rlimit(40)]
proof fn lemma_directive_step(
    pre: Seq<char>,
    body: Seq<char>,
    a: Seq<char>,
    tail: Seq<char>,
    content: Seq<(Seq<char>, Seq<char>)>,
)
    requires
        forall|i: int| !occurs_at(pre, marker(), i),
        forall|i: int| !occurs_at(body, marker(), i),
        forall|i: int| !occurs_at(body, terminator(), i),
        forall|i: int| !occurs_at(a, marker(), i),
        tail.len() == 0 || occurs_at(tail, marker(), 0),
    ensures
        expand(pre + marker() + body + terminator() + a + tail, content) == pre + lookup(
            content,
            key_of(body),
        ) + a + expand(tail, content),
{
    lemma_marker_chars();
    let s = pre + marker() + body + terminator() + a + tail;
    let p = pre.len() as int;
    let rest = body + terminator() + a + tail;
    let b = body.len() as int;
    let q = b + 3 + a.len();
    assert(s.subrange(p, p + 9) =~= marker());
    assert forall|i: int| 0 <= i < p implies !occurs_at(s, marker(), i) by {
        if i + 9 <= p {
            assert(s.subrange(i, i + 9) =~= pre.subrange(i, i + 9));
            assert(!occurs_at(pre, marker(), i));
        } else if occurs_at(s, marker(), i) {
            assert(s.subrange(i, i + 9)[p - i] == s[p]);
            assert(s[p] == '<');
        }
    }
    lemma_first_match_at(s, marker(), 0, p);
    assert(s.subrange(p + 9, s.len() as int) =~= rest);
    assert forall|i: int| 0 <= i < q implies !occurs_at(rest, marker(), i) by {
        if occurs_at(rest, marker(), i) {
            if i + 9 <= b {
                assert(rest.subrange(i, i + 9) =~= body.subrange(i, i + 9));
                assert(!occurs_at(body, marker(), i));
            } else if i <= b + 2 && b + 2 < i + 9 {
                assert(rest.subrange(i, i + 9)[b + 2 - i] == rest[b + 2]);
                assert(rest[b + 2] == '>');
            } else if i < b + 3 {
                assert(rest.subrange(i, i + 9)[8] == rest[i + 8]);
                assert(rest[i + 8] == '-');
            } else if i + 9 <= q {
                assert(rest.subrange(i, i + 9) =~= a.subrange(i - b - 3, i - b + 6));
                assert(!occurs_at(a, marker(), i - b - 3));
            } else {
                assert(tail.len() > 0);
                assert(tail[0] == '<') by {
                    assert(tail.subrange(0, 9)[0] == tail[0]);
                }
                assert(rest[q] == tail[0]);
                assert(rest.subrange(i, i + 9)[q - i] == rest[q]);
            }
        }
    }
    let e = if tail.len() == 0 {
        lemma_first_match_none(rest, marker(), 0);
        s.len() as int
    } else {
        assert(rest.subrange(q, q + 9) =~= tail.subrange(0, 9));
        lemma_first_match_at(rest, marker(), 0, q);
        p + 9 + q
    };
    lemma_expand_unfold(s, content, p, e);
    assert(s.subrange(0, p) =~= pre);
    assert(s.subrange(p + 9, e) =~= body + terminator() + a);
    assert(s.subrange(e, s.len() as int) =~= tail);
    lemma_directive_replaced(body, a, content);
    assert(pre + (lookup(content, key_of(body)) + a) + expand(tail, content) =~= pre + lookup(content, key_of(body)) + a + expand(tail, content));
}

/// What follows the first text of a source built from texts and directive
/// bodies: each directive in turn, then the text after it.
pub open spec fn after_text(texts: Seq<Seq<char>>, bodies: Seq<Seq<char>>) -> Seq<char>
    decreases bodies.len(),
{
    if bodies.len() == 0 || texts.len() < 2 {
        Seq::empty()
    } else {
        marker() + bodies[0] + terminator() + texts[1] + after_text(texts.drop_first(), bodies.drop_first())
    }
}

/// The source `texts[0]`, directive `bodies[0]`, `texts[1]`, ... , directive
/// `bodies[n - 1]`, `texts[n]`.
pub open spec fn assembled(texts: Seq<Seq<char>>, bodies: Seq<Seq<char>>) -> Seq<char> {
    texts[0] + after_text(texts, bodies)
}

/// `after_text` with each directive replaced by its value.
pub open spec fn replaced_after(texts: Seq<Seq<char>>, bodies: Seq<Seq<char>>, content: Seq<(Seq<char>, Seq<char>)>) -> Seq<char>
    decreases bodies.len(),
{
    if bodies.len() == 0 || texts.len() < 2 {
        Seq::empty()
    } else {
        lookup(content, key_of(bodies[0])) + texts[1] + replaced_after(texts.drop_first(), bodies.drop_first(), content)
    }
}

proof fn lemma_directives_after(pre: Seq<char>, texts: Seq<Seq<char>>, bodies: Seq<Seq<char>>, content: Seq<(Seq<char>, Seq<char>)>)
    requires
        texts.len() == bodies.len() + 1,
        forall|i: int| !occurs_at(pre, marker(), i),
        forall|j: int, i: int| 0 <= j < texts.len() ==> !#[trigger] occurs_at(texts[j], marker(), i),
        forall|j: int, i: int| 0 <= j < bodies.len() ==> !#[trigger] occurs_at(bodies[j], marker(), i),
        forall|j: int, i: int| 0 <= j < bodies.len() ==> !#[trigger] occurs_at(bodies[j], terminator(), i),
    ensures
        expand(pre + after_text(texts, bodies), content) == pre + replaced_after(texts, bodies, content),
    decreases bodies.len(),
{
    if bodies.len() == 0 {
        assert(pre + after_text(texts, bodies) =~= pre);
        assert(pre + replaced_after(texts, bodies, content) =~= pre);
        lemma_expand_without_directives(pre, content);
    } else {
        let t2 = texts.drop_first();
        let b2 = bodies.drop_first();
        let tail = after_text(t2, b2);
        assert forall|j: int, i: int| 0 <= j < t2.len() implies !#[trigger] occurs_at(t2[j], marker(), i) by {
            assert(t2[j] == texts[j + 1]);
        }
        assert forall|j: int, i: int| 0 <= j < b2.len() implies !#[trigger] occurs_at(b2[j], marker(), i) && !occurs_at(b2[j], terminator(), i) by {
            assert(b2[j] == bodies[j + 1]);
        }
        assert(!occurs_at(bodies[0], marker(), 0));
        assert forall|i: int| !occurs_at(bodies[0], marker(), i) && !occurs_at(bodies[0], terminator(), i) by {}
        assert forall|i: int| !occurs_at(texts[1], marker(), i) by {}
        if tail.len() > 0 {
            assert(tail.subrange(0, 9) =~= marker());
        }
        lemma_directive_step(pre, bodies[0], texts[1], tail, content);
        assert(forall|i: int| !occurs_at(Seq::<char>::empty(), marker(), i));
        lemma_directives_after(Seq::<char>::empty(), t2, b2, content);
        assert(Seq::<char>::empty() + tail =~= tail);
        assert(Seq::<char>::empty() + replaced_after(t2, b2, content) =~= replaced_after(t2, b2, content));
        assert(pre + after_text(texts, bodies) =~= pre + marker() + bodies[0] + terminator() + texts[1] + tail);
        assert(pre + lookup(content, key_of(bodies[0])) + texts[1] + replaced_after(t2, b2, content) =~= pre + replaced_after(texts, bodies, content));
    }
}

/// In a source made of texts in which no directive opens, separated by
/// terminated directives whose bodies hold no marker and no terminator,
/// every directive gives way to the value of its name (empty when the
/// mapping has none; see `lemma_lookup_present` and `lemma_lookup_absent`)
/// and every text is kept as it stands.
pub proof fn lemma_directives_replaced(texts: Seq<Seq<char>>, bodies: Seq<Seq<char>>, content: Seq<(Seq<char>, Seq<char>)>)
    requires
        texts.len() == bodies.len() + 1,
        forall|j: int, i: int| 0 <= j < texts.len() ==> !#[trigger] occurs_at(texts[j], marker(), i),
        forall|j: int, i: int| 0 <= j < bodies.len() ==> !#[trigger] occurs_at(bodies[j], marker(), i),
        forall|j: int, i: int| 0 <= j < bodies.len() ==> !#[trigger] occurs_at(bodies[j], terminator(), i),
    ensures
        expand(assembled(texts, bodies), content) == texts[0] + replaced_after(texts, bodies, content),
{
    assert forall|i: int| !occurs_at(texts[0], marker(), i) by {}
    lemma_directives_after(texts[0], texts, bodies, content);
}

} // verus!
