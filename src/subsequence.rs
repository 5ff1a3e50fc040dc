use vstd::prelude::*;
use vstd::string::*;

verus! {

/// `f` places each character of `sub` at a position of `s`, in increasing
/// order of position.
pub open spec fn embeds(sub: Seq<char>, s: Seq<char>, f: Seq<int>) -> bool {
    &&& f.len() == sub.len()
    &&& forall|i: int| 0 <= i < f.len() ==> 0 <= #[trigger] f[i] < s.len() && s[f[i]] == sub[i]
    &&& forall|i: int, j: int| 0 <= i < j < f.len() ==> #[trigger] f[i] < #[trigger] f[j]
}

/// `sub` can be read in `s` from left to right, not necessarily contiguously.
pub open spec fn is_subsequence(sub: Seq<char>, s: Seq<char>) -> bool {
    exists|f: Seq<int>| #[trigger] embeds(sub, s, f)
}

/// Whether `subsequence` is a subsequence of `sequence`; the empty string is
/// one of every string.
pub fn match_subsequence(sequence: &str, subsequence: &str) -> (r: bool)
    ensures
        r == is_subsequence(subsequence@, sequence@),
{
    let l = subsequence.unicode_len();
    let n = sequence.unicode_len();
    let ghost sub = subsequence@;
    let ghost s = sequence@;
    if l == 0 {
        assert(embeds(sub, s, Seq::<int>::empty()));
        return true;
    }
    let mut m: usize = 0;
    let mut j: usize = 0;
    let ghost mut f: Seq<int> = Seq::empty();
    proof {
        assert(embeds(sub.subrange(0, 0), s.subrange(0, 0), f));
        if is_subsequence(sub.subrange(0, 1), s.subrange(0, 0)) {
            let g = choose|g: Seq<int>| #[trigger] embeds(sub.subrange(0, 1), s.subrange(0, 0), g);
            assert(sub.subrange(0, 1).len() == 1);
            assert(g.len() == 1);
            assert(0 <= g[0] < s.subrange(0, 0).len());
            assert(false);
        }
    }
    while j < n
        invariant
            l == sub.len(),
            n == s.len(),
            sub == subsequence@,
            s == sequence@,
            0 < l,
            m < l,
            j <= n,
            embeds(sub.subrange(0, m as int), s.subrange(0, j as int), f),
            !is_subsequence(sub.subrange(0, m + 1), s.subrange(0, j as int)),
        decreases n - j,
    {
        let c = sequence.get_char(j);
        if c == subsequence.get_char(m) {
            proof {
                let f2 = f.push(j as int);
                assert(embeds(sub.subrange(0, m + 1), s.subrange(0, j + 1), f2));
                if m + 1 < l {
                    assert(!is_subsequence(sub.subrange(0, m + 2), s.subrange(0, j + 1))) by {
                        if is_subsequence(sub.subrange(0, m + 2), s.subrange(0, j + 1)) {
                            let g = choose|g: Seq<int>| #[trigger] embeds(sub.subrange(0, m + 2), s.subrange(0, j + 1), g);
                            let g2 = g.subrange(0, m + 1);
                            assert(g[m as int] < g[m + 1]);
                            assert(embeds(sub.subrange(0, m + 1), s.subrange(0, j as int), g2));
                        }
                    }
                }
                f = f2;
            }
            if m + 1 == l {
                proof {
                    assert(sub.subrange(0, l as int) =~= sub);
                    assert forall|i: int| 0 <= i < f.len() implies 0 <= #[trigger] f[i] < s.len() && s[f[i]] == sub[i] by {
                        assert(s.subrange(0, j + 1)[f[i]] == s[f[i]]);
                    }
                    assert(embeds(sub, s, f));
                }
                return true;
            }
            m = m + 1;
        } else {
            proof {
                if is_subsequence(sub.subrange(0, m + 1), s.subrange(0, j + 1)) {
                    let g = choose|g: Seq<int>| #[trigger] embeds(sub.subrange(0, m + 1), s.subrange(0, j + 1), g);
                    if g[m as int] == j {
                        assert(s.subrange(0, j + 1)[j as int] == c);
                        assert(sub.subrange(0, m + 1)[m as int] == sub[m as int]);
                    } else {
                        assert(embeds(sub.subrange(0, m + 1), s.subrange(0, j as int), g));
                    }
                }
                let f2 = f;
                assert(embeds(sub.subrange(0, m as int), s.subrange(0, j + 1), f2));
            }
        }
        j = j + 1;
    }
    proof {
        assert(s.subrange(0, n as int) =~= s);
        if is_subsequence(sub, s) {
            let g = choose|g: Seq<int>| #[trigger] embeds(sub, s, g);
            assert(embeds(sub.subrange(0, m + 1), s, g.subrange(0, m + 1)));
        }
    }
    false
}

} // verus!
