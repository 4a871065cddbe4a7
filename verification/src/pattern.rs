//! Wildcard matching.
//!
//! Only `*` is supported: it matches zero or more characters. Users write things
//! like `redis-*`; anything more powerful would only breed misunderstandings.

use vstd::prelude::*;

verus! {

/// Whether the pattern from position `i` on matches the text from position `j` on.
pub open spec fn glob_at(p: Seq<char>, t: Seq<char>, i: int, j: int) -> bool
    decreases p.len() - i, t.len() - j,
{
    if i >= p.len() || i < 0 || j < 0 {
        i == p.len() && j >= t.len()
    } else if p[i] == '*' {
        glob_at(p, t, i + 1, j) || (j < t.len() && glob_at(p, t, i, j + 1))
    } else {
        j < t.len() && t[j] == p[i] && glob_at(p, t, i + 1, j + 1)
    }
}

/// Whether `pattern` matches the whole of `text`, `*` matching any run of characters.
pub open spec fn glob(p: Seq<char>, t: Seq<char>) -> bool {
    glob_at(p, t, 0, 0)
}

/// The characters of a string, as a vector.
pub fn chars_of(s: &str) -> (r: Vec<char>)
    ensures
        r@ == s@,
{
    let n = s.unicode_len();
    let mut out: Vec<char> = Vec::new();
    let mut i: usize = 0;
    while i < n
        invariant
            n == s@.len(),
            i <= n,
            out@ == s@.take(i as int),
        decreases n - i,
    {
        out.push(s.get_char(i));
        i += 1;
        assert(out@ =~= s@.take(i as int));
    }
    assert(s@.take(n as int) =~= s@);
    out
}

/// Whether `pattern` matches `text`. `*` matches zero or more characters.
pub fn matches(pattern: &str, text: &str) -> (r: bool)
    ensures
        r == glob(pattern@, text@),
{
    let p = chars_of(pattern);
    let t = chars_of(text);
    let m = p.len();
    let n = t.len();
    // next[j] == glob_at(p, t, i + 1, j) for the row below the one being computed.
    let mut next: Vec<bool> = Vec::new();
    let mut j: usize = 0;
    while j < n
        invariant
            n == t@.len(),
            m == p@.len(),
            j <= n,
            next@.len() == j,
            forall|k: int| 0 <= k < j ==> next@[k] == glob_at(p@, t@, m as int, k),
        decreases n - j,
    {
        next.push(false);
        j += 1;
    }
    next.push(true);
    let mut i: usize = m;
    while i > 0
        invariant
            n == t@.len(),
            m == p@.len(),
            i <= m,
            next@.len() == n + 1,
            forall|k: int| 0 <= k <= n ==> next@[k] == glob_at(p@, t@, i as int, k),
        decreases i,
    {
        let row = i - 1;
        let c = p[row];
        let mut cur: Vec<bool> = Vec::new();
        let mut k: usize = 0;
        while k < n
            invariant
                k <= n,
                cur@.len() == k,
            decreases n - k,
        {
            cur.push(false);
            k += 1;
        }
        cur.push(false);
        // Fill the row from the right.
        let mut jj: usize = cur.len();
        while jj > 0
            invariant
                n == t@.len(),
                m == p@.len(),
                row < m,
                c == p@[row as int],
                jj <= n + 1,
                cur@.len() == n + 1,
                next@.len() == n + 1,
                forall|k: int| 0 <= k <= n ==> next@[k] == glob_at(p@, t@, row + 1, k),
                forall|k: int| jj <= k <= n ==> cur@[k] == glob_at(p@, t@, row as int, k),
            decreases jj,
        {
            let x = jj - 1;
            let v = if c == '*' {
                next[x] || (x < n && cur[x + 1])
            } else {
                x < n && t[x] == c && next[x + 1]
            };
            cur.set(x, v);
            jj = x;
        }
        next = cur;
        i = row;
    }
    next[0]
}

} // verus!
