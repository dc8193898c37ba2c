use vstd::prelude::*;

use crate::keyed::chars_of;

verus! {

/// `host` matches `mask`, where `*` in the mask stands for any run of
/// characters (none included) and every other character for itself.
pub open spec fn glob_matches(host: Seq<char>, mask: Seq<char>) -> bool
    decreases mask.len(), host.len(),
{
    if mask.len() == 0 {
        host.len() == 0
    } else if mask[0] == '*' {
        glob_matches(host, mask.skip(1)) || (host.len() > 0 && glob_matches(host.skip(1), mask))
    } else {
        host.len() > 0 && host[0] == mask[0] && glob_matches(host.skip(1), mask.skip(1))
    }
}

/// Whether a host name matches an operator's host mask: `*` in the mask
/// stands for any run of characters, every other character for itself.
pub fn host_matches_mask(host: &str, mask: &str) -> (r: bool)
    ensures
        r == glob_matches(host@, mask@),
{
    let h = chars_of(host);
    let m = chars_of(mask);
    let n = h.len();
    let k = m.len();
    // `next[i]` tells whether the host from `i` on matches the mask from `j + 1` on.
    let mut next: Vec<bool> = Vec::new();
    let mut i: usize = 0;
    proof {
        assert(m@.skip(k as int) =~= Seq::<char>::empty());
    }
    while i < n
        invariant
            i <= n,
            n == h@.len(),
            k == m@.len(),
            m@.skip(k as int) =~= Seq::<char>::empty(),
            next@.len() == i,
            forall|a: int| 0 <= a < i ==> next@[a] == glob_matches(h@.skip(a), m@.skip(k as int)),
        decreases n - i,
    {
        next.push(false);
        i = i + 1;
    }
    next.push(true);
    let mut j: usize = k;
    while j > 0
        invariant
            j <= k,
            n == h@.len(),
            k == m@.len(),
            next@.len() == n + 1,
            forall|a: int| 0 <= a <= n ==> next@[a] == glob_matches(h@.skip(a), m@.skip(j as int)),
        decreases j,
    {
        let jj = j - 1;
        let mut cur: Vec<bool> = Vec::new();
        let mut a: usize = 0;
        while a < n
            invariant
                a <= n,
                cur@.len() == a,
            decreases n - a,
        {
            cur.push(false);
            a = a + 1;
        }
        cur.push(false);
        let mut b: usize = cur.len();
        while b > 0
            invariant
                b <= n + 1,
                jj < k,
                n == h@.len(),
                k == m@.len(),
                cur@.len() == n + 1,
                next@.len() == n + 1,
                forall|x: int| 0 <= x <= n ==> next@[x] == glob_matches(h@.skip(x), m@.skip(jj + 1)),
                forall|x: int| b <= x <= n ==> cur@[x] == glob_matches(h@.skip(x), m@.skip(jj as int)),
            decreases b,
        {
            let x = b - 1;
            proof {
                assert(m@.skip(jj as int).skip(1) =~= m@.skip(jj + 1));
                assert(m@.skip(jj as int)[0] == m@[jj as int]);
                if x < n {
                    assert(h@.skip(x as int).skip(1) =~= h@.skip(x + 1));
                    assert(h@.skip(x as int)[0] == h@[x as int]);
                }
            }
            let v = if m[jj] == '*' {
                next[x] || (x < n && cur[x + 1])
            } else {
                x < n && h[x] == m[jj] && next[x + 1]
            };
            cur.set(x, v);
            b = x;
        }
        next = cur;
        j = jj;
    }
    proof {
        assert(h@.skip(0) =~= h@);
        assert(m@.skip(0) =~= m@);
    }
    next[0]
}

} // verus!
