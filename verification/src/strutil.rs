//! Character-level string utilities shared by the matching engine and the
//! recent-project discovery helpers.

use vstd::prelude::*;
use vstd::string::StrSliceExecFns;
use vstd::string::StringExecFns;

verus! {

/// The case folding that `str::to_lowercase` performs; the result depends on
/// the characters of the input alone.
pub uninterp spec fn folded_of(s: Seq<char>) -> Seq<char>;

/// Relies on str::to_lowercase: a pure function of the input characters.
#[verifier::external_body]
pub(crate) fn fold_case(s: &str) -> (r: String)
    ensures
        r@ == folded_of(s@),
{
    s.to_lowercase()
}

/// The characters of `s`, as a vector.
pub fn chars_of(s: &str) -> (v: Vec<char>)
    ensures
        v@ == s@,
{
    let n = s.unicode_len();
    let mut v: Vec<char> = Vec::new();
    let mut i: usize = 0;
    while i < n
        invariant
            i <= n,
            n == s@.len(),
            v@ == s@.subrange(0, i as int),
        decreases n - i,
    {
        let c = s.get_char(i);
        v.push(c);
        i = i + 1;
        proof {
            assert(v@ =~= s@.subrange(0, i as int));
        }
    }
    proof {
        assert(v@ =~= s@);
    }
    v
}

/// Whether two character vectors hold the same characters.
pub fn chars_eq(a: &Vec<char>, b: &Vec<char>) -> (r: bool)
    ensures
        r == (a@ == b@),
{
    if a.len() != b.len() {
        return false;
    }
    let mut i: usize = 0;
    while i < a.len()
        invariant
            i <= a@.len(),
            a@.len() == b@.len(),
            forall|k: int| 0 <= k < i ==> a@[k] == b@[k],
        decreases a@.len() - i,
    {
        if a[i] != b[i] {
            return false;
        }
        i = i + 1;
    }
    proof {
        assert(a@ =~= b@);
    }
    true
}

/// Whether two strings hold the same characters.
pub fn str_eq(a: &str, b: &str) -> (r: bool)
    ensures
        r == (a@ == b@),
{
    let an = a.unicode_len();
    let bn = b.unicode_len();
    if an != bn {
        return false;
    }
    let mut i: usize = 0;
    while i < an
        invariant
            i <= an,
            an == a@.len(),
            an == b@.len(),
            forall|k: int| 0 <= k < i ==> a@[k] == b@[k],
        decreases an - i,
    {
        if a.get_char(i) != b.get_char(i) {
            return false;
        }
        i = i + 1;
    }
    proof {
        assert(a@ =~= b@);
    }
    true
}

/// `a` followed by `b`.
pub fn concat_strs(a: &str, b: &str) -> (r: String)
    ensures
        r@ == a@ + b@,
{
    let mut r = a.to_owned();
    r.append(b);
    r
}

/// `s` with every occurrence of the nonempty `pat` replaced by `repl`,
/// scanning left to right without overlap.
pub open spec fn replaced(s: Seq<char>, pat: Seq<char>, repl: Seq<char>) -> Seq<char>
    decreases s.len(),
{
    if s.len() == 0 {
        s
    } else if pat.len() > 0 && s.len() >= pat.len() && s.subrange(0, pat.len() as int) == pat {
        repl + replaced(s.skip(pat.len() as int), pat, repl)
    } else {
        seq![s[0]] + replaced(s.drop_first(), pat, repl)
    }
}

/// Whether `pat` occurs in `s` starting at character position `i`.
fn str_match_at(s: &str, pat: &str, i: usize, n: usize, plen: usize) -> (b: bool)
    requires
        n == s@.len(),
        plen == pat@.len(),
        i + plen <= n,
    ensures
        b == (s@.subrange(i as int, i as int + plen as int) == pat@),
{
    let mut j: usize = 0;
    while j < plen
        invariant
            j <= plen,
            n == s@.len(),
            plen == pat@.len(),
            i + plen <= n,
            forall|k: int| 0 <= k < j ==> s@[i + k] == pat@[k],
        decreases plen - j,
    {
        if s.get_char(i + j) != pat.get_char(j) {
            proof {
                let sub = s@.subrange(i as int, i as int + plen as int);
                assert(sub[j as int] == s@[i + j]);
            }
            return false;
        }
        j = j + 1;
    }
    proof {
        assert(s@.subrange(i as int, i as int + plen as int) =~= pat@);
    }
    true
}

/// Replace every occurrence of the nonempty `pat` in `s` by `repl`, left to
/// right, without overlap.
pub fn replace_all(s: &str, pat: &str, repl: &str) -> (r: String)
    requires
        pat@.len() > 0,
    ensures
        r@ == replaced(s@, pat@, repl@),
{
    let n = s.unicode_len();
    let plen = pat.unicode_len();
    let mut out = String::new();
    let mut i: usize = 0;
    proof {
        assert(s@.skip(0) =~= s@);
    }
    while i < n
        invariant
            i <= n,
            n == s@.len(),
            plen == pat@.len(),
            plen > 0,
            out@ + replaced(s@.skip(i as int), pat@, repl@) == replaced(s@, pat@, repl@),
        decreases n - i,
    {
        let ghost rest = s@.skip(i as int);
        if plen <= n - i && str_match_at(s, pat, i, n, plen) {
            proof {
                assert(rest.subrange(0, plen as int) =~= s@.subrange(
                    i as int,
                    i as int + plen as int,
                ));
                assert(rest.skip(plen as int) =~= s@.skip(i as int + plen as int));
                assert(replaced(rest, pat@, repl@) == repl@ + replaced(
                    s@.skip(i as int + plen as int),
                    pat@,
                    repl@,
                ));
            }
            let ghost ob = out@;
            out.append(repl);
            proof {
                assert(out@ + replaced(s@.skip(i as int + plen as int), pat@, repl@) =~= ob
                    + replaced(rest, pat@, repl@));
            }
            i = i + plen;
        } else {
            proof {
                if plen <= n - i {
                    assert(rest.subrange(0, plen as int) =~= s@.subrange(
                        i as int,
                        i as int + plen as int,
                    ));
                }
                assert(rest.drop_first() =~= s@.skip(i as int + 1));
                assert(replaced(rest, pat@, repl@) == seq![s@[i as int]] + replaced(
                    s@.skip(i as int + 1),
                    pat@,
                    repl@,
                ));
            }
            let piece = s.substring_char(i, i + 1);
            let ghost ob = out@;
            out.append(piece);
            proof {
                assert(piece@ =~= seq![s@[i as int]]);
                assert(out@ + replaced(s@.skip(i as int + 1), pat@, repl@) =~= ob + replaced(
                    rest,
                    pat@,
                    repl@,
                ));
            }
            i = i + 1;
        }
    }
    proof {
        assert(s@.skip(n as int) =~= Seq::<char>::empty());
        assert(out@ + replaced(s@.skip(n as int), pat@, repl@) =~= out@);
    }
    out
}

/// `s` with trailing separators removed.
pub open spec fn trim_trailing_slashes(s: Seq<char>) -> Seq<char>
    decreases s.len(),
{
    if s.len() > 0 && s.last() == '/' {
        trim_trailing_slashes(s.drop_last())
    } else {
        s
    }
}

/// The characters after the last separator of `s`.
pub open spec fn last_component(s: Seq<char>) -> Seq<char>
    decreases s.len(),
{
    if s.len() == 0 {
        s
    } else if s.last() == '/' {
        Seq::empty()
    } else {
        last_component(s.drop_last()).push(s.last())
    }
}

/// The file name of a path: the last component once trailing separators are
/// dropped; nothing when no component remains.
pub open spec fn file_name_of(path: Seq<char>) -> Option<Seq<char>> {
    let c = last_component(trim_trailing_slashes(path));
    if c.len() == 0 {
        None
    } else {
        Some(c)
    }
}

/// The file name of `path`, as `file_name_of` gives it.
pub fn file_name(path: &str) -> (r: Option<String>)
    ensures
        r matches Some(s) ==> file_name_of(path@) == Some(s@),
        r is None ==> file_name_of(path@) is None,
{
    let n = path.unicode_len();
    let mut end: usize = n;
    proof {
        assert(path@.take(n as int) =~= path@);
    }
    while end > 0 && path.get_char(end - 1) == '/'
        invariant
            end <= n,
            n == path@.len(),
            trim_trailing_slashes(path@) == trim_trailing_slashes(path@.take(end as int)),
        decreases end,
    {
        proof {
            assert(path@.take(end as int).drop_last() =~= path@.take(end - 1));
        }
        end = end - 1;
    }
    proof {
        assert(trim_trailing_slashes(path@.take(end as int)) == path@.take(end as int));
    }
    let ghost t = path@.take(end as int);
    let mut start: usize = end;
    while start > 0 && path.get_char(start - 1) != '/'
        invariant
            start <= end <= n,
            n == path@.len(),
            t == path@.take(end as int),
            last_component(t) == last_component(path@.take(start as int)) + path@.subrange(
                start as int,
                end as int,
            ),
        decreases start,
    {
        proof {
            assert(path@.take(start as int).drop_last() =~= path@.take(start - 1));
            assert(last_component(path@.take(start - 1)).push(path@[start - 1]) + path@.subrange(
                start as int,
                end as int,
            ) =~= last_component(path@.take(start - 1)) + path@.subrange(start - 1, end as int));
        }
        start = start - 1;
    }
    proof {
        if start > 0 {
            assert(last_component(path@.take(start as int)) =~= Seq::<char>::empty());
        }
        assert(last_component(t) =~= path@.subrange(start as int, end as int));
    }
    if start == end {
        None
    } else {
        Some(path.substring_char(start, end).to_owned())
    }
}

} // verus!
