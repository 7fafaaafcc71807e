//! Notation normalizer: rewrites the compact dash-based rung encoding of one
//! row into a whitespace-separated stream of single-character movement tokens.
//!
//! Three rewrites run in order, each scanning left to right and replacing
//! non-overlapping occurrences: `--` becomes `> <`, then `|>` collapses to
//! `>`, then `<|` collapses to `<`. The step is total over any input text;
//! token validity is checked later, by the movement-symbol parser.

use vstd::prelude::*;
use vstd::string::StrSliceExecFns;
use vstd::string::StringExecFns;

verus! {

/// Left-to-right, non-overlapping replacement of the two-character pattern
/// `p0 p1` by `to`, as one pass of the normalizer performs it.
pub open spec fn replace_pair_seq(s: Seq<char>, p0: char, p1: char, to: Seq<char>) -> Seq<char>
    decreases s.len(),
{
    if s.len() < 2 {
        s
    } else if s[0] == p0 && s[1] == p1 {
        to + replace_pair_seq(s.skip(2), p0, p1, to)
    } else {
        seq![s[0]] + replace_pair_seq(s.skip(1), p0, p1, to)
    }
}

/// The three rewrites of the normalizer, applied in order.
pub open spec fn normalize_spec(s: Seq<char>) -> Seq<char> {
    replace_pair_seq(
        replace_pair_seq(replace_pair_seq(s, '-', '-', seq!['>', ' ', '<']), '|', '>', seq!['>']),
        '<',
        '|',
        seq!['<'],
    )
}

/// The text holds the two characters `p0 p1` adjacently somewhere.
pub open spec fn has_pair(s: Seq<char>, p0: char, p1: char) -> bool {
    exists|i: int| 0 <= i && i + 1 < s.len() && #[trigger] s[i] == p0 && s[i + 1] == p1
}

proof fn lemma_replace_pair_no_match(s: Seq<char>, p0: char, p1: char, to: Seq<char>)
    requires
        !has_pair(s, p0, p1),
    ensures
        replace_pair_seq(s, p0, p1, to) == s,
    decreases s.len(),
{
    if s.len() < 2 {
    } else if s[0] == p0 && s[1] == p1 {
        assert(has_pair(s, p0, p1)) by {
            assert(s[0] == p0 && s[0int + 1] == p1);
        }
    } else {
        let t = s.skip(1);
        assert(!has_pair(t, p0, p1)) by {
            if has_pair(t, p0, p1) {
                let i = choose|i: int|
                    0 <= i && i + 1 < t.len() && #[trigger] t[i] == p0 && t[i + 1] == p1;
                assert(s[i + 1] == p0 && s[i + 2] == p1);
            }
        }
        lemma_replace_pair_no_match(t, p0, p1, to);
        assert(seq![s[0]] + t =~= s);
    }
}

/// Law: text with no dash pair and no pipe-angle or angle-pipe contraction is
/// returned unchanged by normalization.
pub proof fn lemma_normalize_clean_identity(s: Seq<char>)
    requires
        !has_pair(s, '-', '-'),
        !has_pair(s, '|', '>'),
        !has_pair(s, '<', '|'),
    ensures
        normalize_spec(s) == s,
{
    lemma_replace_pair_no_match(s, '-', '-', seq!['>', ' ', '<']);
    lemma_replace_pair_no_match(s, '|', '>', seq!['>']);
    lemma_replace_pair_no_match(s, '<', '|', seq!['<']);
}

/// Relies on `String::push`: appends exactly the given character to the string.
#[verifier::external_body]
fn push_char(s: &mut String, c: char)
    ensures
        final(s)@ == old(s)@.push(c),
{
    s.push(c);
}

/// The characters of `s`, in order, as a vector.
fn chars_of(s: &str) -> (r: Vec<char>)
    ensures
        r@ == s@,
{
    let n = s.unicode_len();
    let mut r: Vec<char> = Vec::new();
    let mut i: usize = 0;
    while i < n
        invariant
            i <= n,
            n == s@.len(),
            r@ == s@.take(i as int),
        decreases n - i,
    {
        let c = s.get_char(i);
        r.push(c);
        proof {
            assert(s@.take(i as int).push(s@[i as int]) =~= s@.take(i + 1 as int));
        }
        i = i + 1;
    }
    proof {
        assert(s@.take(n as int) =~= s@);
    }
    r
}

/// One pass of the normalizer over a character vector: every non-overlapping
/// occurrence of `p0 p1`, found left to right, is replaced by `to`.
fn replace_pair(src: &Vec<char>, p0: char, p1: char, to: &Vec<char>) -> (r: Vec<char>)
    ensures
        r@ == replace_pair_seq(src@, p0, p1, to@),
{
    let mut out: Vec<char> = Vec::new();
    let n = src.len();
    let mut i: usize = 0;
    proof {
        assert(src@.skip(0) =~= src@);
        assert(out@ + replace_pair_seq(src@.skip(0), p0, p1, to@) =~= replace_pair_seq(
            src@,
            p0,
            p1,
            to@,
        ));
    }
    while i < n
        invariant
            i <= n,
            n == src@.len(),
            out@ + replace_pair_seq(src@.skip(i as int), p0, p1, to@) == replace_pair_seq(
                src@,
                p0,
                p1,
                to@,
            ),
        decreases n - i,
    {
        let ghost rest = src@.skip(i as int);
        if i + 1 < n && src[i] == p0 && src[i + 1] == p1 {
            let ghost out_before = out@;
            let mut k: usize = 0;
            while k < to.len()
                invariant
                    k <= to@.len(),
                    out@ == out_before + to@.take(k as int),
                decreases to@.len() - k,
            {
                out.push(to[k]);
                proof {
                    assert(to@.take(k as int).push(to@[k as int]) =~= to@.take(k + 1 as int));
                }
                k = k + 1;
            }
            proof {
                assert(to@.take(to@.len() as int) =~= to@);
                assert(rest.len() >= 2 && rest[0] == p0 && rest[1] == p1);
                assert(rest.skip(2) =~= src@.skip(i + 2 as int));
                assert((out_before + to@) + replace_pair_seq(src@.skip(i + 2 as int), p0, p1, to@)
                    =~= out_before + replace_pair_seq(rest, p0, p1, to@));
            }
            i = i + 2;
        } else {
            out.push(src[i]);
            proof {
                if i + 1 < n {
                    assert(rest.len() >= 2 && !(rest[0] == p0 && rest[1] == p1));
                    assert(rest.skip(1) =~= src@.skip(i + 1 as int));
                    assert(out@ + replace_pair_seq(src@.skip(i + 1 as int), p0, p1, to@)
                        =~= (out@.drop_last() + seq![rest[0]]) + replace_pair_seq(
                        rest.skip(1),
                        p0,
                        p1,
                        to@,
                    ));
                    assert((out@.drop_last() + seq![rest[0]]) + replace_pair_seq(
                        rest.skip(1),
                        p0,
                        p1,
                        to@,
                    ) =~= out@.drop_last() + replace_pair_seq(rest, p0, p1, to@));
                } else {
                    assert(rest.len() == 1);
                    assert(replace_pair_seq(rest, p0, p1, to@) == rest);
                    assert(src@.skip(i + 1 as int).len() == 0);
                    assert(replace_pair_seq(src@.skip(i + 1 as int), p0, p1, to@) == src@.skip(
                        i + 1 as int,
                    ));
                    assert(out@ + src@.skip(i + 1 as int) =~= out@.drop_last() + rest);
                }
            }
            i = i + 1;
        }
    }
    proof {
        assert(src@.skip(n as int).len() == 0);
        assert(replace_pair_seq(src@.skip(n as int), p0, p1, to@) == src@.skip(n as int));
        assert(out@ + src@.skip(n as int) =~= out@);
    }
    out
}

/// An ASCII whitespace character: space, horizontal tab, line feed, form
/// feed or carriage return. Tokens are the maximal runs between them.
pub open spec fn is_ws(c: char) -> bool {
    c == ' ' || c == '\t' || c == '\n' || c == '\u{c}' || c == '\r'
}

/// The whitespace-delimited tokens of `s`, in order: maximal runs of
/// non-whitespace characters.
pub open spec fn split_ws(s: Seq<char>) -> Seq<Seq<char>>
    decreases s.len(), 0int,
{
    if s.len() == 0 {
        Seq::empty()
    } else if is_ws(s[0]) {
        split_ws(s.skip(1))
    } else {
        split_ws_token(s.skip(1), seq![s[0]])
    }
}

/// The tokens of `cur + s` once a token has begun: `cur` is the run of
/// non-whitespace characters read so far.
pub open spec fn split_ws_token(s: Seq<char>, cur: Seq<char>) -> Seq<Seq<char>>
    decreases s.len(), 1int,
{
    if s.len() == 0 {
        seq![cur]
    } else if is_ws(s[0]) {
        seq![cur] + split_ws(s.skip(1))
    } else {
        split_ws_token(s.skip(1), cur.push(s[0]))
    }
}

fn is_ws_char(c: char) -> (b: bool)
    ensures
        b == is_ws(c),
{
    c == ' ' || c == '\t' || c == '\n' || c == '\u{c}' || c == '\r'
}

/// Splits the text into its whitespace-delimited tokens, in order.
pub fn tokenize(s: &str) -> (r: Vec<String>)
    ensures
        r@.map_values(|t: String| t@) == split_ws(s@),
{
    let cs = chars_of(s);
    let n = cs.len();
    let mut toks: Vec<String> = Vec::new();
    let mut i: usize = 0;
    proof {
        assert(cs@.skip(0) =~= cs@);
        assert(toks@.map_values(|t: String| t@) + split_ws(cs@.skip(0)) =~= split_ws(cs@));
    }
    while i < n
        invariant
            i <= n,
            n == cs@.len(),
            cs@ == s@,
            toks@.map_values(|t: String| t@) + split_ws(cs@.skip(i as int)) == split_ws(cs@),
        decreases n - i,
    {
        if is_ws_char(cs[i]) {
            proof {
                assert(cs@.skip(i as int).skip(1) =~= cs@.skip(i + 1 as int));
            }
            i = i + 1;
        } else {
            let ghost i_entry = i as int;
            let mut cur = String::new();
            push_char(&mut cur, cs[i]);
            proof {
                assert(cur@ =~= seq![cs@[i as int]]);
                assert(cs@.skip(i as int).skip(1) =~= cs@.skip(i + 1 as int));
                assert(split_ws(cs@.skip(i as int)) == split_ws_token(
                    cs@.skip(i + 1 as int),
                    cur@,
                ));
            }
            i = i + 1;
            while i < n && !is_ws_char(cs[i])
                invariant
                    i_entry < i <= n,
                    n == cs@.len(),
                    toks@.map_values(|t: String| t@) + split_ws_token(cs@.skip(i as int), cur@)
                        == split_ws(cs@),
                decreases n - i,
            {
                push_char(&mut cur, cs[i]);
                proof {
                    assert(cs@.skip(i as int).skip(1) =~= cs@.skip(i + 1 as int));
                }
                i = i + 1;
            }
            let ghost toks_before = toks@.map_values(|t: String| t@);
            let ghost cur_view = cur@;
            toks.push(cur);
            proof {
                assert(toks@.map_values(|t: String| t@) =~= toks_before.push(cur_view));
                if i < n {
                    assert(is_ws(cs@.skip(i as int)[0]));
                    assert(split_ws_token(cs@.skip(i as int), cur_view) == seq![cur_view]
                        + split_ws(cs@.skip(i as int).skip(1)));
                    assert(toks_before.push(cur_view) + split_ws(cs@.skip(i as int).skip(1))
                        =~= toks_before + (seq![cur_view] + split_ws(cs@.skip(i as int).skip(1))));
                } else {
                    assert(cs@.skip(i as int).len() == 0);
                    assert(split_ws_token(cs@.skip(i as int), cur_view) == seq![cur_view]);
                    assert(toks_before.push(cur_view) + split_ws(cs@.skip(i as int)) =~= toks_before
                        + (seq![cur_view] + split_ws(cs@.skip(i as int))));
                    assert(split_ws(cs@.skip(i as int)) == Seq::<Seq<char>>::empty());
                    assert(seq![cur_view] + Seq::<Seq<char>>::empty() =~= seq![cur_view]);
                }
            }
        }
    }
    proof {
        assert(cs@.skip(n as int).len() == 0);
        assert(split_ws(cs@.skip(n as int)) == Seq::<Seq<char>>::empty());
        assert(toks@.map_values(|t: String| t@) + Seq::<Seq<char>>::empty() =~= toks@.map_values(
            |t: String| t@,
        ));
    }
    toks
}

/// Normalizes one row of rung notation: `--` becomes `> <`, then `|>`
/// collapses to `>`, then `<|` collapses to `<`. Total over any input; the
/// result splits on whitespace into single-character movement tokens whenever
/// the input was well-formed rung notation.
pub fn replace_chars(s: &str) -> (r: String)
    ensures
        r@ == normalize_spec(s@),
{
    let cs = chars_of(s);
    let mut cross: Vec<char> = Vec::new();
    cross.push('>');
    cross.push(' ');
    cross.push('<');
    let mut right: Vec<char> = Vec::new();
    right.push('>');
    let mut left: Vec<char> = Vec::new();
    left.push('<');
    proof {
        assert(cross@ =~= seq!['>', ' ', '<']);
        assert(right@ =~= seq!['>']);
        assert(left@ =~= seq!['<']);
    }
    let pass1 = replace_pair(&cs, '-', '-', &cross);
    let pass2 = replace_pair(&pass1, '|', '>', &right);
    let pass3 = replace_pair(&pass2, '<', '|', &left);
    let mut r = String::new();
    let mut i: usize = 0;
    while i < pass3.len()
        invariant
            i <= pass3@.len(),
            r@ == pass3@.take(i as int),
        decreases pass3@.len() - i,
    {
        push_char(&mut r, pass3[i]);
        proof {
            assert(pass3@.take(i as int).push(pass3@[i as int]) =~= pass3@.take(i + 1 as int));
        }
        i = i + 1;
    }
    proof {
        assert(pass3@.take(pass3@.len() as int) =~= pass3@);
    }
    r
}

} // verus!
