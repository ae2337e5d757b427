//! Splitting text into lines and whitespace-separated tokens, substring
//! search, and joining tokens with single spaces, each proved against a
//! spec-level model over `Seq<char>`.

use vstd::prelude::*;
use vstd::string::*;

verus! {

/// The Unicode white-space characters, the set `char::is_whitespace`
/// recognizes and on which tokens are split.
pub open spec fn is_ws(c: char) -> bool {
    ||| c == ' '
    ||| c == '\t'
    ||| c == '\n'
    ||| c == '\u{0B}'
    ||| c == '\u{0C}'
    ||| c == '\r'
    ||| c == '\u{85}'
    ||| c == '\u{A0}'
    ||| c == '\u{1680}'
    ||| c == '\u{2000}'
    ||| c == '\u{2001}'
    ||| c == '\u{2002}'
    ||| c == '\u{2003}'
    ||| c == '\u{2004}'
    ||| c == '\u{2005}'
    ||| c == '\u{2006}'
    ||| c == '\u{2007}'
    ||| c == '\u{2008}'
    ||| c == '\u{2009}'
    ||| c == '\u{200A}'
    ||| c == '\u{2028}'
    ||| c == '\u{2029}'
    ||| c == '\u{202F}'
    ||| c == '\u{205F}'
    ||| c == '\u{3000}'
}

/// Runtime test for `is_ws`.
pub fn is_ws_char(c: char) -> (b: bool)
    ensures
        b == is_ws(c),
{
    c == ' ' || c == '\t' || c == '\n' || c == '\u{0B}' || c == '\u{0C}' || c == '\r'
        || c == '\u{85}' || c == '\u{A0}' || c == '\u{1680}' || c == '\u{2000}'
        || c == '\u{2001}' || c == '\u{2002}' || c == '\u{2003}' || c == '\u{2004}'
        || c == '\u{2005}' || c == '\u{2006}' || c == '\u{2007}' || c == '\u{2008}'
        || c == '\u{2009}' || c == '\u{200A}' || c == '\u{2028}' || c == '\u{2029}'
        || c == '\u{202F}' || c == '\u{205F}' || c == '\u{3000}'
}

/// A line with one trailing carriage return removed: `str::lines` drops an
/// `'\r'` that stands just before the terminating line feed.
pub open spec fn strip_cr(l: Seq<char>) -> Seq<char> {
    if l.len() > 0 && l.last() == '\r' {
        l.drop_last()
    } else {
        l
    }
}

/// The lines of `s`, with `cur` the partial line read so far: each `'\n'`
/// ends a line (an `'\r'` just before it is dropped), and a final line
/// without a terminator is kept as it stands.
pub open spec fn lines_rec(s: Seq<char>, cur: Seq<char>) -> Seq<Seq<char>>
    decreases s.len(),
{
    if s.len() == 0 {
        if cur.len() == 0 {
            Seq::empty()
        } else {
            seq![cur]
        }
    } else if s[0] == '\n' {
        seq![strip_cr(cur)] + lines_rec(s.drop_first(), Seq::empty())
    } else {
        lines_rec(s.drop_first(), cur.push(s[0]))
    }
}

/// The newline-delimited lines of `s`, following the splitting rule of
/// `str::lines`.
pub open spec fn spec_lines(s: Seq<char>) -> Seq<Seq<char>> {
    lines_rec(s, Seq::empty())
}

/// Splits `s` into its lines: each `'\n'` ends a line, an `'\r'` standing
/// just before the `'\n'` is dropped, and a final line without a
/// terminator is kept.
pub fn split_lines(s: &str) -> (r: Vec<String>)
    ensures
        r.deep_view() == spec_lines(s@),
{
    let n = s.unicode_len();
    let mut out: Vec<String> = Vec::new();
    let mut cur = String::new();
    let mut i: usize = 0;
    proof {
        assert(s@.subrange(0, n as int) =~= s@);
        assert(out.deep_view() + lines_rec(s@, cur@) =~= lines_rec(s@, cur@));
    }
    while i < n
        invariant
            i <= n,
            n == s@.len(),
            spec_lines(s@) == out.deep_view() + lines_rec(
                s@.subrange(i as int, n as int),
                cur@,
            ),
        decreases n - i,
    {
        let ghost prev_out = out.deep_view();
        let ghost prev_cur = cur@;
        let ghost rest = s@.subrange(i as int, n as int);
        proof {
            assert(rest.drop_first() =~= s@.subrange(i + 1, n as int));
        }
        let c = s.get_char(i);
        if c == '\n' {
            let l = cur.as_str().unicode_len();
            if l > 0 && cur.as_str().get_char(l - 1) == '\r' {
                let stripped = cur.as_str().substring_char(0, l - 1).to_owned();
                proof {
                    assert(stripped@ =~= strip_cr(prev_cur));
                }
                out.push(stripped);
            } else {
                out.push(cur);
            }
            cur = String::new();
            proof {
                assert(out.deep_view() =~= prev_out.push(strip_cr(prev_cur)));
                assert(out.deep_view() + lines_rec(s@.subrange(i + 1, n as int), cur@) =~= prev_out
                    + lines_rec(rest, prev_cur));
            }
        } else {
            let piece = s.substring_char(i, i + 1);
            cur.append(piece);
            proof {
                assert(cur@ =~= prev_cur.push(rest[0]));
            }
        }
        i += 1;
    }
    proof {
        assert(s@.subrange(n as int, n as int) =~= Seq::<char>::empty());
    }
    if cur.as_str().unicode_len() > 0 {
        let ghost prev_out = out.deep_view();
        let ghost prev_cur = cur@;
        out.push(cur);
        proof {
            assert(out.deep_view() =~= prev_out + lines_rec(Seq::<char>::empty(), prev_cur));
        }
    } else {
        proof {
            assert(out.deep_view() + lines_rec(Seq::<char>::empty(), cur@) =~= out.deep_view());
        }
    }
    out
}

/// The whitespace-separated tokens of `s`, with `cur` the partial token
/// read so far: white space ends the current token (empty runs yield no
/// token), and any remaining partial token is kept at the end.
pub open spec fn tokens_rec(s: Seq<char>, cur: Seq<char>) -> Seq<Seq<char>>
    decreases s.len(),
{
    if s.len() == 0 {
        if cur.len() == 0 {
            Seq::empty()
        } else {
            seq![cur]
        }
    } else if is_ws(s[0]) {
        if cur.len() == 0 {
            tokens_rec(s.drop_first(), Seq::empty())
        } else {
            seq![cur] + tokens_rec(s.drop_first(), Seq::empty())
        }
    } else {
        tokens_rec(s.drop_first(), cur.push(s[0]))
    }
}

/// The whitespace-separated tokens of `s`, following the splitting rule of
/// `str::split_whitespace`.
pub open spec fn spec_tokens(s: Seq<char>) -> Seq<Seq<char>> {
    tokens_rec(s, Seq::empty())
}

/// Splits `s` on runs of white space into its tokens, as
/// `str::split_whitespace` does; no token is empty.
pub fn split_tokens(s: &str) -> (r: Vec<String>)
    ensures
        r.deep_view() == spec_tokens(s@),
{
    let n = s.unicode_len();
    let mut out: Vec<String> = Vec::new();
    let mut cur = String::new();
    let mut i: usize = 0;
    proof {
        assert(s@.subrange(0, n as int) =~= s@);
        assert(out.deep_view() + tokens_rec(s@, cur@) =~= tokens_rec(s@, cur@));
    }
    while i < n
        invariant
            i <= n,
            n == s@.len(),
            spec_tokens(s@) == out.deep_view() + tokens_rec(
                s@.subrange(i as int, n as int),
                cur@,
            ),
        decreases n - i,
    {
        let ghost prev_out = out.deep_view();
        let ghost prev_cur = cur@;
        let ghost rest = s@.subrange(i as int, n as int);
        proof {
            assert(rest.drop_first() =~= s@.subrange(i + 1, n as int));
        }
        let c = s.get_char(i);
        if is_ws_char(c) {
            if cur.as_str().unicode_len() > 0 {
                out.push(cur);
                cur = String::new();
                proof {
                    assert(out.deep_view() =~= prev_out.push(prev_cur));
                    assert(out.deep_view() + tokens_rec(s@.subrange(i + 1, n as int), cur@)
                        =~= prev_out + tokens_rec(rest, prev_cur));
                }
            } else {
                proof {
                    assert(cur@ =~= Seq::<char>::empty());
                }
            }
        } else {
            let piece = s.substring_char(i, i + 1);
            cur.append(piece);
            proof {
                assert(cur@ =~= prev_cur.push(rest[0]));
            }
        }
        i += 1;
    }
    proof {
        assert(s@.subrange(n as int, n as int) =~= Seq::<char>::empty());
    }
    if cur.as_str().unicode_len() > 0 {
        let ghost prev_out = out.deep_view();
        let ghost prev_cur = cur@;
        out.push(cur);
        proof {
            assert(out.deep_view() =~= prev_out + tokens_rec(Seq::<char>::empty(), prev_cur));
        }
    } else {
        proof {
            assert(out.deep_view() + tokens_rec(Seq::<char>::empty(), cur@) =~= out.deep_view());
        }
    }
    out
}

/// `needle` occurs as a contiguous run of characters inside `hay`.
pub open spec fn contains_seq(hay: Seq<char>, needle: Seq<char>) -> bool {
    exists|k: int|
        0 <= k && k + needle.len() <= hay.len() && #[trigger] hay.subrange(
            k,
            k + needle.len() as int,
        ) == needle
}

/// Whether `needle` matches the characters of `hay` starting at `at`.
fn matches_at(hay: &str, needle: &str, at: usize) -> (b: bool)
    requires
        at + needle@.len() <= hay@.len(),
    ensures
        b == (hay@.subrange(at as int, at + needle@.len() as int) == needle@),
{
    let hn = hay.unicode_len();
    let m = needle.unicode_len();
    let mut j: usize = 0;
    while j < m
        invariant
            j <= m,
            m == needle@.len(),
            hn == hay@.len(),
            at + m <= hn,
            forall|k: int| 0 <= k < j ==> hay@[at + k] == needle@[k],
        decreases m - j,
    {
        if hay.get_char(at + j) != needle.get_char(j) {
            proof {
                assert(hay@.subrange(at as int, at + m as int)[j as int] != needle@[j as int]);
            }
            return false;
        }
        j += 1;
    }
    proof {
        assert(hay@.subrange(at as int, at + m as int) =~= needle@);
    }
    true
}

/// Whether `hay` contains `needle` as a substring, as `str::contains` on a
/// string pattern does.
pub fn contains_str(hay: &str, needle: &str) -> (b: bool)
    ensures
        b == contains_seq(hay@, needle@),
{
    let hn = hay.unicode_len();
    let m = needle.unicode_len();
    if m > hn {
        return false;
    }
    let mut i: usize = 0;
    loop
        invariant
            m <= hn,
            hn == hay@.len(),
            m == needle@.len(),
            i <= hn - m,
            forall|k: int|
                0 <= k < i ==> #[trigger] hay@.subrange(k, k + needle@.len() as int) != needle@,
        decreases hn - m - i,
    {
        if matches_at(hay, needle, i) {
            proof {
                assert(hay@.subrange(i as int, i + needle@.len() as int) == needle@);
            }
            return true;
        }
        if i == hn - m {
            proof {
                assert(forall|k: int|
                    0 <= k <= i ==> #[trigger] hay@.subrange(k, k + needle@.len() as int)
                        != needle@);
            }
            return false;
        }
        i += 1;
    }
}

/// The tokens joined with a single space between each two of them.
pub open spec fn join_spaces(toks: Seq<Seq<char>>) -> Seq<char>
    decreases toks.len(),
{
    if toks.len() == 0 {
        Seq::empty()
    } else if toks.len() == 1 {
        toks[0]
    } else {
        toks[0] + seq![' '] + join_spaces(toks.drop_first())
    }
}

proof fn lemma_join_spaces_push(toks: Seq<Seq<char>>, t: Seq<char>)
    ensures
        join_spaces(toks.push(t)) == if toks.len() == 0 {
            t
        } else {
            join_spaces(toks) + seq![' '] + t
        },
    decreases toks.len(),
{
    if toks.len() == 0 {
        assert(toks.push(t)[0] =~= t);
        assert(join_spaces(toks.push(t)) == t);
    } else {
        assert(toks.push(t).drop_first() =~= toks.drop_first().push(t));
        lemma_join_spaces_push(toks.drop_first(), t);
        if toks.len() == 1 {
            assert(join_spaces(toks.push(t)) =~= toks[0] + seq![' '] + t);
            assert(join_spaces(toks) + seq![' '] + t =~= toks[0] + seq![' '] + t);
        } else {
            assert(join_spaces(toks.push(t)) =~= join_spaces(toks) + seq![' '] + t);
        }
    }
}

/// Joins the tokens of `parts` from position `from` on with single spaces,
/// as `[_]::join` with a one-space separator does.
pub fn join_tail(parts: &Vec<String>, from: usize) -> (r: String)
    requires
        from <= parts@.len(),
    ensures
        r@ == join_spaces(parts.deep_view().subrange(from as int, parts@.len() as int)),
{
    let mut acc = String::new();
    let mut i: usize = from;
    proof {
        assert(parts.deep_view().subrange(from as int, from as int) =~= Seq::<Seq<char>>::empty());
    }
    while i < parts.len()
        invariant
            from <= i <= parts@.len(),
            acc@ == join_spaces(parts.deep_view().subrange(from as int, i as int)),
        decreases parts@.len() - i,
    {
        let ghost prefix = parts.deep_view().subrange(from as int, i as int);
        if i > from {
            acc.append(" ");
        }
        acc.append(parts[i].as_str());
        proof {
            reveal_strlit(" ");
            assert(" "@ =~= seq![' ']);
            assert(parts.deep_view().subrange(from as int, i + 1) =~= prefix.push(
                parts.deep_view()[i as int],
            ));
            lemma_join_spaces_push(prefix, parts.deep_view()[i as int]);
        }
        i += 1;
    }
    acc
}

} // verus!
