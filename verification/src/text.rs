use vstd::prelude::*;

verus! {

/// ASCII whitespace: what trimming removes from either end of a candidate
/// code before the digits-only test.
pub open spec fn is_space(c: char) -> bool {
    c == ' ' || c == '\t' || c == '\n' || c == '\r' || c == '\u{b}' || c == '\u{c}'
}

/// An ASCII decimal digit.
pub open spec fn is_digit(c: char) -> bool {
    '0' <= c && c <= '9'
}

/// `s` with leading whitespace removed.
pub open spec fn trim_front(s: Seq<char>) -> Seq<char>
    decreases s.len(),
{
    if s.len() > 0 && is_space(s[0]) {
        trim_front(s.drop_first())
    } else {
        s
    }
}

/// `s` with trailing whitespace removed.
pub open spec fn trim_back(s: Seq<char>) -> Seq<char>
    decreases s.len(),
{
    if s.len() > 0 && is_space(s.last()) {
        trim_back(s.drop_last())
    } else {
        s
    }
}

/// `s` with both leading and trailing whitespace removed.
pub open spec fn trimmed(s: Seq<char>) -> Seq<char> {
    trim_back(trim_front(s))
}

/// Every character of `s` is an ASCII decimal digit.
pub open spec fn all_digits(s: Seq<char>) -> bool {
    forall|i: int| 0 <= i < s.len() ==> is_digit(s[i])
}

/// A string is digits-only when, after trimming surrounding whitespace,
/// it is non-empty and consists exclusively of ASCII decimal digits.
pub open spec fn digits_only(s: Seq<char>) -> bool {
    trimmed(s).len() > 0 && all_digits(trimmed(s))
}

/// Decides the digits-only predicate on a string.
pub fn is_digits_only(s: &str) -> (r: bool)
    ensures
        r == digits_only(s@),
{
    let n = s.unicode_len();
    proof {
        assert(s@.skip(0) =~= s@);
    }
    let mut a: usize = 0;
    let mut stop = false;
    while a < n && !stop
        invariant
            a <= n,
            n == s@.len(),
            trim_front(s@) == trim_front(s@.skip(a as int)),
            stop ==> a < n && !is_space(s@[a as int]),
        decreases n - a + (if stop { 0int } else { 1int }),
    {
        let c = s.get_char(a);
        if is_space_exec(c) {
            proof {
                let t = s@.skip(a as int);
                assert(t.len() > 0 && is_space(t[0]));
                assert(t.drop_first() =~= s@.skip(a as int + 1));
            }
            a += 1;
        } else {
            stop = true;
        }
    }
    if a == n {
        proof {
            assert(s@.skip(a as int) =~= Seq::<char>::empty());
        }
        return false;
    }
    proof {
        let t = s@.skip(a as int);
        assert(!is_space(t[0]));
        assert(trim_front(s@) == t);
    }
    let ghost t = s@.skip(a as int);
    let m = n - a;
    proof {
        assert(t.take(m as int) =~= t);
    }
    let mut j = m;
    stop = false;
    while j > 0 && !stop
        invariant
            j <= m,
            m == n - a,
            a < n,
            n == s@.len(),
            t == s@.skip(a as int),
            trim_back(t) == trim_back(t.take(j as int)),
            stop ==> j > 0 && !is_space(t[j - 1]),
        decreases j + (if stop { 0int } else { 1int }),
    {
        let c = s.get_char(a + j - 1);
        if is_space_exec(c) {
            proof {
                let u = t.take(j as int);
                assert(u.last() == t[j - 1]);
                assert(t[j - 1] == s@[a + j - 1]);
                assert(is_space(u.last()));
                assert(u.drop_last() =~= t.take(j as int - 1));
            }
            j -= 1;
        } else {
            stop = true;
        }
    }
    if j == 0 {
        // cannot happen: t starts with a non-space character
        proof {
            assert(t.take(0) =~= Seq::<char>::empty());
            assert(trim_back(t).len() == 0);
            assert(false) by {
                lemma_trim_back_keeps_head(t);
            }
        }
    }
    proof {
        let u = t.take(j as int);
        assert(u.len() > 0);
        assert(u.last() == t[j - 1]);
        assert(!is_space(u.last()));
        assert(trim_back(u) == u);
        assert(trimmed(s@) == u);
    }
    let mut k: usize = 0;
    let mut ok = true;
    while k < j
        invariant
            k <= j,
            0 < j <= m,
            m == n - a,
            a < n,
            n == s@.len(),
            t == s@.skip(a as int),
            trimmed(s@) == t.take(j as int),
            ok == all_digits(t.take(j as int).take(k as int)),
        decreases j - k,
    {
        let c = s.get_char(a + k);
        proof {
            let u = t.take(j as int).take(k as int);
            let u2 = t.take(j as int).take(k as int + 1);
            assert(t.take(j as int)[k as int] == s@[a + k]);
            assert(u2 =~= u.push(s@[a + k]));
            assert(forall|i: int| 0 <= i < u.len() ==> u2[i] == u[i]);
            assert(u2[u.len() as int] == s@[a + k]);
        }
        if !('0' <= c && c <= '9') {
            ok = false;
        }
        k += 1;
    }
    proof {
        assert(t.take(j as int).take(j as int) =~= t.take(j as int));
    }
    ok
}

/// The non-space head of a sequence survives trailing trimming.
proof fn lemma_trim_back_keeps_head(s: Seq<char>)
    requires
        s.len() > 0,
        !is_space(s[0]),
    ensures
        trim_back(s).len() > 0,
        trim_back(s)[0] == s[0],
    decreases s.len(),
{
    if s.len() > 0 && is_space(s.last()) {
        assert(s.drop_last()[0] == s[0]);
        lemma_trim_back_keeps_head(s.drop_last());
    }
}

/// Decides ASCII whitespace on one character.
pub fn is_space_exec(c: char) -> (r: bool)
    ensures
        r == is_space(c),
{
    c == ' ' || c == '\t' || c == '\n' || c == '\r' || c == '\u{b}' || c == '\u{c}'
}

} // verus!
