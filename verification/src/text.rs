#![verifier::loop_isolation(false)]

use vstd::prelude::*;
use vstd::string::StrSliceExecFns;

verus! {

/// The case folding performed by the standard library's `str::to_lowercase`.
/// Its value is fixed by the characters of the input alone; nothing else is
/// assumed about it here.
pub uninterp spec fn lower_of(s: Seq<char>) -> Seq<char>;

/// Relies on `str::to_lowercase`: the result depends on the characters of the
/// input alone, and an empty string stays empty.
#[verifier::external_body]
pub fn to_lowercase(s: &str) -> (r: String)
    ensures
        r@ == lower_of(s@),
        s@.len() == 0 ==> r@.len() == 0,
{
    s.to_lowercase()
}

/// Whether `n` occurs in `h` starting at position `i`.
pub open spec fn match_at(h: Seq<char>, n: Seq<char>, i: int) -> bool {
    0 <= i && i + n.len() <= h.len() && h.subrange(i, i + n.len()) == n
}

/// Whether `n` occurs somewhere in `h`.
pub open spec fn contains_seq(h: Seq<char>, n: Seq<char>) -> bool {
    exists|i: int| match_at(h, n, i)
}

/// Substring test: whether the characters of `n` occur contiguously in `h`.
pub fn str_contains(h: &str, n: &str) -> (b: bool)
    ensures
        b == contains_seq(h@, n@),
{
    let hl = h.unicode_len();
    let nl = n.unicode_len();
    if nl > hl {
        proof {
            assert forall|i: int| !match_at(h@, n@, i) by {}
        }
        return false;
    }
    if nl == 0 {
        proof {
            assert(h@.subrange(0, 0) =~= n@);
            assert(match_at(h@, n@, 0));
        }
        return true;
    }
    let mut i: usize = 0;
    while i <= hl - nl
        invariant
            1 <= nl <= hl,
            i <= hl - nl + 1,
            forall|k: int| 0 <= k < i ==> !match_at(h@, n@, k),
        decreases hl - nl + 1 - i,
    {
        let mut j: usize = 0;
        let mut matches = true;
        while j < nl
            invariant
                0 <= j <= nl,
                i + nl <= hl,
                matches ==> forall|t: int| 0 <= t < j ==> h@[i + t] == n@[t],
                !matches ==> !match_at(h@, n@, i as int),
            decreases nl - j,
        {
            if h.get_char(i + j) != n.get_char(j) {
                proof {
                    if match_at(h@, n@, i as int) {
                        assert(h@.subrange(i as int, i + n@.len())[j as int] == n@[j as int]);
                    }
                }
                matches = false;
                j = nl;
            } else {
                j += 1;
            }
        }
        if matches {
            proof {
                assert(h@.subrange(i as int, i + n@.len()) =~= n@);
                assert(match_at(h@, n@, i as int));
            }
            return true;
        }
        i += 1;
    }
    proof {
        assert forall|k: int| !match_at(h@, n@, k) by {
            if 0 <= k && k + n@.len() <= h@.len() {
                assert(k < i);
            }
        }
    }
    false
}

/// The separators the engine strips from the ends of a rights token.
pub open spec fn is_space(c: char) -> bool {
    c == ' ' || c == '\t' || c == '\n' || c == '\r'
}

/// Drop the leading spaces.
pub open spec fn ltrim(s: Seq<char>) -> Seq<char>
    decreases s.len(),
{
    if s.len() > 0 && is_space(s[0]) {
        ltrim(s.drop_first())
    } else {
        s
    }
}

/// Drop the trailing spaces.
pub open spec fn rtrim(s: Seq<char>) -> Seq<char>
    decreases s.len(),
{
    if s.len() > 0 && is_space(s.last()) {
        rtrim(s.drop_last())
    } else {
        s
    }
}

/// Drop the spaces on both ends.
pub open spec fn trim_spaces(s: Seq<char>) -> Seq<char> {
    rtrim(ltrim(s))
}

/// The comma-separated segments of a string: fold the characters, a comma
/// closing the current segment.
pub open spec fn split_acc(s: Seq<char>, cur: Seq<char>) -> Seq<Seq<char>>
    decreases s.len(),
{
    if s.len() == 0 {
        seq![cur]
    } else if s[0] == ',' {
        seq![cur] + split_acc(s.drop_first(), Seq::empty())
    } else {
        split_acc(s.drop_first(), cur.push(s[0]))
    }
}

/// The comma-separated segments of a string.
pub open spec fn split_commas(s: Seq<char>) -> Seq<Seq<char>> {
    split_acc(s, Seq::empty())
}

/// The rights named by a comma-separated list: each segment trimmed, empty
/// segments dropped, the rest case-folded.
pub open spec fn parse_rights_s(s: Seq<char>) -> Seq<Seq<char>> {
    split_commas(s).map_values(|t: Seq<char>| trim_spaces(t)).filter(
        |t: Seq<char>| t.len() > 0,
    ).map_values(|t: Seq<char>| lower_of(t))
}

/// Filtering a one-element sequence keeps or drops that element.
proof fn lemma_filter_singleton<A>(x: A, pred: spec_fn(A) -> bool)
    ensures
        seq![x].filter(pred) == if pred(x) {
            seq![x]
        } else {
            Seq::<A>::empty()
        },
{
    reveal(Seq::filter);
    assert(seq![x].drop_last() =~= Seq::<A>::empty());
    assert(seq![x].last() == x);
    assert(Seq::<A>::empty().filter(pred) =~= Seq::<A>::empty());
    if pred(x) {
        assert(seq![x].filter(pred) =~= seq![x]);
    } else {
        assert(seq![x].filter(pred) =~= Seq::<A>::empty());
    }
}

/// Trim the spaces off both ends of a string slice.
fn trim_str<'a>(s: &'a str) -> (r: &'a str)
    ensures
        r@ == trim_spaces(s@),
{
    let n = s.unicode_len();
    let mut a: usize = 0;
    let mut stop_left = false;
    proof {
        assert(s@.skip(0) =~= s@);
    }
    while a < n && !stop_left
        invariant
            n == s@.len(),
            0 <= a <= n,
            ltrim(s@) == ltrim(s@.skip(a as int)),
            stop_left ==> a < n && !is_space(s@[a as int]),
        decreases n - a + (if stop_left { 0int } else { 1int }),
    {
        let c = s.get_char(a);
        if c == ' ' || c == '\t' || c == '\n' || c == '\r' {
            proof {
                assert(s@.skip(a as int)[0] == s@[a as int]);
                assert(s@.skip(a as int).drop_first() =~= s@.skip(a + 1 as int));
            }
            a += 1;
        } else {
            stop_left = true;
        }
    }
    proof {
        if a < n {
            assert(s@.skip(a as int)[0] == s@[a as int]);
        } else {
            assert(s@.skip(a as int) =~= Seq::<char>::empty());
        }
        assert(ltrim(s@) == s@.skip(a as int));
    }
    let ghost t = s@.skip(a as int);
    let mut b: usize = n;
    let mut stop_right = false;
    proof {
        assert(t.take(n - a as int) =~= t);
    }
    while b > a && !stop_right
        invariant
            n == s@.len(),
            a <= b <= n,
            t == s@.skip(a as int),
            rtrim(t) == rtrim(t.take(b - a as int)),
            stop_right ==> b > a && !is_space(s@[b - 1 as int]),
        decreases b + (if stop_right { 0int } else { 1int }),
    {
        let c = s.get_char(b - 1);
        if c == ' ' || c == '\t' || c == '\n' || c == '\r' {
            proof {
                let cut = t.take(b - a as int);
                assert(cut.last() == s@[b - 1 as int]);
                assert(cut.drop_last() =~= t.take(b - 1 - a as int));
            }
            b -= 1;
        } else {
            stop_right = true;
        }
    }
    proof {
        let cut = t.take(b - a as int);
        if b > a {
            assert(cut.last() == s@[b - 1 as int]);
        } else {
            assert(cut =~= Seq::<char>::empty());
        }
        assert(rtrim(t) == cut);
        assert(t.take(b - a as int) =~= s@.subrange(a as int, b as int));
    }
    s.substring_char(a, b)
}

/// Parse a comma-separated list of rights: tokens are trimmed, folded to
/// lower case, and empty tokens are dropped.
pub fn parse_rights_string(rights: &str) -> (r: Vec<String>)
    ensures
        crate::util::string_views(r@) == parse_rights_s(rights@),
{
    let n = rights.unicode_len();
    let mut out: Vec<String> = Vec::new();
    let mut start: usize = 0;
    let mut i: usize = 0;
    let ghost keep = |t: Seq<char>| t.len() > 0;
    proof {
        reveal(Seq::filter);
        assert(rights@.skip(0) =~= rights@);
        assert(rights@.subrange(0, 0) =~= Seq::<char>::empty());
        assert(crate::util::string_views(out@) =~= Seq::<Seq<char>>::empty());
    }
    while i < n
        invariant
            n == rights@.len(),
            0 <= start <= i <= n,
            crate::util::string_views(out@) + split_acc(
                rights@.skip(i as int),
                rights@.subrange(start as int, i as int),
            ).map_values(|t: Seq<char>| trim_spaces(t)).filter(keep).map_values(
                |t: Seq<char>| lower_of(t),
            ) == parse_rights_s(rights@),
        decreases n - i,
    {
        proof {
            assert(rights@.skip(i as int)[0] == rights@[i as int]);
            assert(rights@.skip(i as int).drop_first() =~= rights@.skip(i + 1 as int));
        }
        if rights.get_char(i) == ',' {
            let seg = rights.substring_char(start, i);
            let token = trim_str(seg);
            let ghost segv = rights@.subrange(start as int, i as int);
            proof {
                reveal(Seq::filter);
                let tail = split_acc(rights@.skip(i + 1 as int), Seq::<char>::empty());
                assert(split_acc(rights@.skip(i as int), segv) == seq![segv] + tail);
                let whole = (seq![segv] + tail).map_values(|t: Seq<char>| trim_spaces(t)).filter(
                    keep,
                ).map_values(|t: Seq<char>| lower_of(t));
                assert((seq![segv] + tail).map_values(|t: Seq<char>| trim_spaces(t)) =~= seq![
                    trim_spaces(segv)] + tail.map_values(|t: Seq<char>| trim_spaces(t)));
                Seq::filter_distributes_over_add(
                    seq![trim_spaces(segv)],
                    tail.map_values(|t: Seq<char>| trim_spaces(t)),
                    keep,
                );
                lemma_filter_singleton(trim_spaces(segv), keep);
            }
            if token.unicode_len() > 0 {
                let folded = to_lowercase(token);
                let ghost ov = crate::util::string_views(out@);
                out.push(folded);
                proof {
                    assert(crate::util::string_views(out@) =~= ov.push(lower_of(trim_spaces(segv))));
                    let tail = split_acc(rights@.skip(i + 1 as int), Seq::<char>::empty());
                    let tm = tail.map_values(|t: Seq<char>| trim_spaces(t)).filter(keep).map_values(
                        |t: Seq<char>| lower_of(t),
                    );
                    assert((seq![trim_spaces(segv)] + tail.map_values(
                        |t: Seq<char>| trim_spaces(t),
                    ).filter(keep)).map_values(|t: Seq<char>| lower_of(t)) =~= seq![
                        lower_of(trim_spaces(segv))] + tm);
                    assert(crate::util::string_views(out@) + tm =~= ov + (seq![
                        lower_of(trim_spaces(segv))] + tm));
                }
            } else {
                proof {
                    assert(trim_spaces(segv).len() == 0);
                    let tail = split_acc(rights@.skip(i + 1 as int), Seq::<char>::empty());
                    let tm = tail.map_values(|t: Seq<char>| trim_spaces(t)).filter(keep).map_values(
                        |t: Seq<char>| lower_of(t),
                    );
                    assert((Seq::<Seq<char>>::empty() + tail.map_values(
                        |t: Seq<char>| trim_spaces(t),
                    ).filter(keep)).map_values(|t: Seq<char>| lower_of(t)) =~= tm);
                }
            }
            start = i + 1;
            proof {
                assert(rights@.subrange(start as int, i + 1 as int) =~= Seq::<char>::empty());
            }
        } else {
            proof {
                assert(rights@.subrange(start as int, i + 1 as int) =~= rights@.subrange(
                    start as int,
                    i as int,
                ).push(rights@[i as int]));
            }
        }
        i += 1;
    }
    // the final segment
    let seg = rights.substring_char(start, n);
    let token = trim_str(seg);
    let ghost segv = rights@.subrange(start as int, n as int);
    proof {
        reveal(Seq::filter);
        assert(rights@.skip(n as int) =~= Seq::<char>::empty());
        assert(split_acc(rights@.skip(n as int), segv) == seq![segv]);
        assert(seq![segv].map_values(|t: Seq<char>| trim_spaces(t)) =~= seq![trim_spaces(segv)]);
        lemma_filter_singleton(trim_spaces(segv), keep);
    }
    if token.unicode_len() > 0 {
        let folded = to_lowercase(token);
        let ghost ov = crate::util::string_views(out@);
        out.push(folded);
        proof {
            assert(crate::util::string_views(out@) =~= ov.push(lower_of(trim_spaces(segv))));
            assert(seq![trim_spaces(segv)].map_values(|t: Seq<char>| lower_of(t)) =~= seq![
                lower_of(trim_spaces(segv))]);
            assert(ov.push(lower_of(trim_spaces(segv))) =~= ov + seq![lower_of(trim_spaces(segv))]);
        }
    } else {
        proof {
            assert(Seq::<Seq<char>>::empty().map_values(|t: Seq<char>| lower_of(t)) =~= Seq::<
                Seq<char>,
            >::empty());
            assert(crate::util::string_views(out@) + Seq::<Seq<char>>::empty()
                =~= crate::util::string_views(out@));
        }
    }
    out
}

} // verus!
