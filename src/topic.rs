use vstd::prelude::*;

verus! {

/// `k` is the position of the one and only `*` in `p`.
pub open spec fn single_star_at(p: Seq<char>, k: int) -> bool {
    &&& 0 <= k < p.len()
    &&& p[k] == '*'
    &&& forall|i: int| 0 <= i < p.len() && i != k ==> p[i] != '*'
}

/// `t` begins with `prefix`.
pub open spec fn starts_with(t: Seq<char>, prefix: Seq<char>) -> bool {
    prefix.len() <= t.len() && t.subrange(0, prefix.len() as int) == prefix
}

/// `t` ends with `suffix`.
pub open spec fn ends_with(t: Seq<char>, suffix: Seq<char>) -> bool {
    suffix.len() <= t.len() && t.subrange(t.len() - suffix.len(), t.len() as int) == suffix
}

/// Whether `topic` satisfies `pattern`. A pattern with exactly one `*` matches
/// every topic that starts with the text before the star and ends with the text
/// after it; the two checks are made independently, so they may overlap. Any
/// other pattern (no star, or several) matches only the identical topic.
pub open spec fn topic_match(topic: Seq<char>, pattern: Seq<char>) -> bool {
    if pattern == seq!['*'] {
        true
    } else if exists|k: int| single_star_at(pattern, k) {
        let k = choose|k: int| single_star_at(pattern, k);
        starts_with(topic, pattern.subrange(0, k)) && ends_with(
            topic,
            pattern.subrange(k + 1, pattern.len() as int),
        )
    } else {
        topic == pattern
    }
}

fn chars_of(s: &str) -> (r: Vec<char>)
    ensures
        r@ == s@,
{
    let n = s.unicode_len();
    let mut r: Vec<char> = Vec::new();
    let mut i: usize = 0;
    while i < n
        invariant
            n == s@.len(),
            i <= n,
            r@ == s@.subrange(0, i as int),
        decreases n - i,
    {
        let c = s.get_char(i);
        r.push(c);
        i = i + 1;
        assert(r@ =~= s@.subrange(0, i as int));
    }
    assert(r@ =~= s@);
    r
}

/// Whether `a[a_start..a_start + n]` and `b[b_start..b_start + n]` hold the same characters.
fn same_run(a: &Vec<char>, a_start: usize, b: &Vec<char>, b_start: usize, n: usize) -> (r: bool)
    requires
        a_start + n <= a@.len(),
        b_start + n <= b@.len(),
    ensures
        r == (a@.subrange(a_start as int, a_start + n) == b@.subrange(
            b_start as int,
            b_start + n,
        )),
{
    let a_len = a.len();
    let b_len = b.len();
    let mut i: usize = 0;
    while i < n
        invariant
            i <= n,
            a_len == a@.len(),
            b_len == b@.len(),
            a_start + n <= a@.len(),
            b_start + n <= b@.len(),
            a@.subrange(a_start as int, a_start + i) =~= b@.subrange(b_start as int, b_start + i),
        decreases n - i,
    {
        if a[a_start + i] != b[b_start + i] {
            assert(a@.subrange(a_start as int, a_start + n)[i as int] != b@.subrange(
                b_start as int,
                b_start + n,
            )[i as int]);
            return false;
        }
        proof {
            assert(a@.subrange(a_start as int, a_start + i + 1) =~= a@.subrange(a_start as int, a_start + i).push(a@[a_start + i]));
            assert(b@.subrange(b_start as int, b_start + i + 1) =~= b@.subrange(b_start as int, b_start + i).push(b@[b_start + i]));
        }
        i = i + 1;
    }
    true
}

/// Decides `topic_match(topic, pattern)`.
pub fn topic_matches(topic: &str, pattern: &str) -> (r: bool)
    ensures
        r == topic_match(topic@, pattern@),
{
    let t = chars_of(topic);
    let p = chars_of(pattern);
    let mut stars: usize = 0;
    let mut star_at: usize = 0;
    let mut i: usize = 0;
    while i < p.len()
        invariant
            i <= p@.len(),
            stars <= i,
            stars == 0 ==> forall|j: int| 0 <= j < i ==> p@[j] != '*',
            stars == 1 ==> star_at < i && single_star_at(p@.subrange(0, i as int), star_at as int),
            stars >= 2 ==> exists|a: int, b: int| 0 <= a < b < i && p@[a] == '*' && p@[b] == '*',
        decreases p@.len() - i,
    {
        if p[i] == '*' {
            if stars == 1 {
                assert(p@.subrange(0, i as int)[star_at as int] == '*');
            }
            if stars == 0 {
                star_at = i;
            }
            if stars < 2 {
                stars = stars + 1;
            }
        }
        i = i + 1;
        if stars == 1 {
            assert forall|j: int| 0 <= j < i && j != star_at implies p@.subrange(
                0,
                i as int,
            )[j] != '*' by {
                if j < i - 1 {
                    assert(p@.subrange(0, i - 1)[j] == p@[j]);
                }
            }
        }
    }
    assert(p@.subrange(0, p@.len() as int) =~= p@);
    if stars == 1 {
        assert(single_star_at(p@, star_at as int));
        let k = star_at;
        let suffix_len = p.len() - k - 1;
        let pre = k <= t.len() && same_run(&t, 0, &p, 0, k);
        let suf = suffix_len <= t.len() && same_run(&t, t.len() - suffix_len, &p, k + 1, suffix_len);
        proof {
            assert(forall|k2: int| single_star_at(p@, k2) ==> k2 == k);
            let kc = choose|k2: int| single_star_at(p@, k2);
            assert(kc == k);
            if p@ =~= seq!['*'] {
                assert(p@.subrange(0, 0) =~= t@.subrange(0, 0));
                assert(p@.subrange(1, 1) =~= t@.subrange(t@.len() as int, t@.len() as int));
            }
        }
        pre && suf
    } else {
        proof {
            if stars == 0 {
                assert(forall|k2: int| !single_star_at(p@, k2));
                assert(p@ != seq!['*']) by {
                    if p@ =~= seq!['*'] {
                        assert(p@[0] == '*');
                    }
                }
            } else {
                let (a, b) = choose|a: int, b: int| 0 <= a < b < p@.len() && p@[a] == '*' && p@[b] == '*';
                assert(forall|k2: int| !single_star_at(p@, k2));
                assert(p@ != seq!['*']) by {
                    if p@ =~= seq!['*'] {
                        assert(p@.len() == 1);
                    }
                }
            }
        }
        assert(t@.subrange(0, t@.len() as int) =~= t@);
        t.len() == p.len() && same_run(&t, 0, &p, 0, t.len())
    }
}

} // verus!
