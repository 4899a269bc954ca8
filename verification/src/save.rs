//! Folder names of saved worlds, and the order in which saved worlds are listed.

use vstd::prelude::*;
use crate::text::{string_push};

verus! {

/// ASCII letters and digits.
pub open spec fn ascii_alnum(c: char) -> bool {
    ('0' <= c && c <= '9') || ('a' <= c && c <= 'z') || ('A' <= c && c <= 'Z')
}

/// Slug character for `c`: letters and digits lower-cased, anything else a dash.
pub open spec fn slug_char(c: char) -> char {
    if 'A' <= c && c <= 'Z' {
        ((c as u32) + 32) as char
    } else if ascii_alnum(c) {
        c
    } else {
        '-'
    }
}

/// `s` without leading dashes.
pub open spec fn strip_front(s: Seq<char>) -> Seq<char>
    decreases s.len(),
{
    if s.len() > 0 && s[0] == '-' { strip_front(s.drop_first()) } else { s }
}

/// `s` without trailing dashes.
pub open spec fn strip_back(s: Seq<char>) -> Seq<char>
    decreases s.len(),
{
    if s.len() > 0 && s.last() == '-' { strip_back(s.drop_last()) } else { s }
}

/// Folder name of a world called `name`: each character mapped by `slug_char`,
/// surrounding dashes removed, "monde" when nothing is left.
pub open spec fn slug_of(name: Seq<char>) -> Seq<char> {
    let s = strip_back(strip_front(name.map_values(|c: char| slug_char(c))));
    if s.len() == 0 { "monde"@ } else { s }
}

fn slug_char_exec(c: char) -> (r: char)
    ensures
        r == slug_char(c),
{
    if 'A' <= c && c <= 'Z' {
        let v = (c as u32) + 32;
        proof {
            assert(0x41 <= c as u32 <= 0x5A);
        }
        let lower = char_from_ascii(v);
        lower
    } else if ('0' <= c && c <= '9') || ('a' <= c && c <= 'z') {
        c
    } else {
        '-'
    }
}

/// The character with ASCII code `v`.
fn char_from_ascii(v: u32) -> (r: char)
    requires
        v < 128,
    ensures
        r == v as char,
{
    let b = v as u8;
    b as char
}

proof fn lemma_strip_front_step(s: Seq<char>, lo: int)
    requires
        0 <= lo < s.len(),
        s[lo] == '-',
    ensures
        strip_front(s.subrange(lo, s.len() as int)) == strip_front(s.subrange(lo + 1, s.len() as int)),
{
    assert(s.subrange(lo, s.len() as int).drop_first() =~= s.subrange(lo + 1, s.len() as int));
}

proof fn lemma_strip_back_step(s: Seq<char>, lo: int, hi: int)
    requires
        0 <= lo < hi <= s.len(),
        s[hi - 1] == '-',
    ensures
        strip_back(s.subrange(lo, hi)) == strip_back(s.subrange(lo, hi - 1)),
{
    assert(s.subrange(lo, hi).drop_last() =~= s.subrange(lo, hi - 1));
}

/// Folder name derived from a world's name (lower-case ASCII letters, digits and dashes).
pub fn slug(name: &str) -> (r: String)
    ensures
        r@ == slug_of(name@),
{
    let chars = crate::text::chars_of(name);
    let n = chars.len();
    let mut mapped: Vec<char> = Vec::new();
    let mut i: usize = 0;
    while i < n
        invariant
            n == chars@.len(),
            chars@ == name@,
            i <= n,
            mapped@ == name@.take(i as int).map_values(|c: char| slug_char(c)),
        decreases n - i,
    {
        mapped.push(slug_char_exec(chars[i]));
        assert(name@.take(i + 1).map_values(|c: char| slug_char(c)) =~= name@.take(i as int).map_values(|c: char| slug_char(c)).push(slug_char(chars@[i as int])));
        i = i + 1;
    }
    assert(name@.take(n as int) =~= name@);
    let ghost m = mapped@;
    let mut lo: usize = 0;
    assert(m.subrange(0, n as int) =~= m);
    while lo < n && mapped[lo] == '-'
        invariant
            lo <= n,
            n == m.len(),
            m == mapped@,
            strip_front(m) == strip_front(m.subrange(lo as int, n as int)),
        decreases n - lo,
    {
        proof { lemma_strip_front_step(m, lo as int); }
        lo = lo + 1;
    }
    assert(strip_front(m) == m.subrange(lo as int, n as int));
    let mut hi: usize = n;
    while hi > lo && mapped[hi - 1] == '-'
        invariant
            lo <= hi <= n,
            n == m.len(),
            m == mapped@,
            strip_back(strip_front(m)) == strip_back(m.subrange(lo as int, hi as int)),
        decreases hi - lo,
    {
        proof { lemma_strip_back_step(m, lo as int, hi as int); }
        hi = hi - 1;
    }
    proof {
        let t = m.subrange(lo as int, hi as int);
        if t.len() > 0 {
            assert(t.last() == m[hi - 1]);
        }
    }
    if lo == hi {
        let mut out = String::new();
        out.append("monde");
        return out;
    }
    let mut out = String::new();
    let mut k = lo;
    while k < hi
        invariant
            lo <= k <= hi,
            hi <= mapped@.len(),
            out@ == mapped@.subrange(lo as int, k as int),
        decreases hi - k,
    {
        string_push(&mut out, mapped[k]);
        assert(mapped@.subrange(lo as int, k + 1) =~= mapped@.subrange(lo as int, k as int).push(mapped@[k as int]));
        k = k + 1;
    }
    out
}

/// Stripping dashes at the front leaves a suffix that is empty or starts with a non-dash.
proof fn lemma_strip_front(s: Seq<char>)
    ensures
        strip_front(s).len() == 0 || strip_front(s)[0] != '-',
        exists|k: int| 0 <= k <= s.len() && strip_front(s) == #[trigger] s.skip(k),
    decreases s.len(),
{
    if s.len() > 0 && s[0] == '-' {
        lemma_strip_front(s.drop_first());
        let k = choose|k: int| 0 <= k <= s.drop_first().len() && strip_front(s.drop_first()) == #[trigger] s.drop_first().skip(k);
        assert(s.drop_first().skip(k) =~= s.skip(k + 1));
    } else {
        assert(s.skip(0) =~= s);
    }
}

/// Stripping dashes at the back leaves a prefix that is empty or ends with a non-dash.
proof fn lemma_strip_back(s: Seq<char>)
    ensures
        strip_back(s).len() == 0 || strip_back(s).last() != '-',
        exists|k: int| 0 <= k <= s.len() && strip_back(s) == #[trigger] s.take(k),
    decreases s.len(),
{
    if s.len() > 0 && s.last() == '-' {
        lemma_strip_back(s.drop_last());
        let k = choose|k: int| 0 <= k <= s.drop_last().len() && strip_back(s.drop_last()) == #[trigger] s.drop_last().take(k);
        assert(s.drop_last().take(k) =~= s.take(k));
    } else {
        assert(s.take(s.len() as int) =~= s);
    }
}

/// A folder name is never empty, neither starts nor ends with a dash, and holds
/// only lower-case ASCII letters, digits and dashes.
pub proof fn law_slug_shape(name: Seq<char>)
    ensures
        slug_of(name).len() > 0,
        slug_of(name)[0] != '-',
        slug_of(name).last() != '-',
        forall|i: int| 0 <= i < slug_of(name).len() ==> {
            let c = #[trigger] slug_of(name)[i];
            ('a' <= c && c <= 'z') || ('0' <= c && c <= '9') || c == '-'
        },
{
    let mapped = name.map_values(|c: char| slug_char(c));
    let f = strip_front(mapped);
    lemma_strip_front(mapped);
    lemma_strip_back(f);
    let b = strip_back(f);
    let k1 = choose|k: int| 0 <= k <= mapped.len() && f == #[trigger] mapped.skip(k);
    let k2 = choose|k: int| 0 <= k <= f.len() && b == #[trigger] f.take(k);
    reveal_strlit("monde");
    if b.len() > 0 {
        assert(b[0] == f[0]);
        assert forall|i: int| 0 <= i < b.len() implies {
            let c = #[trigger] b[i];
            ('a' <= c && c <= 'z') || ('0' <= c && c <= '9') || c == '-'
        } by {
            assert(b[i] == mapped[i + k1]);
            let c0 = name[i + k1];
            if 'A' <= c0 && c0 <= 'Z' {
                assert((c0 as u32) + 32 < 128);
                assert(('a' as u32) == 97 && ('z' as u32) == 122 && ('A' as u32) == 65 && ('Z' as u32) == 90);
            }
        }
    }
}

/// What `str::to_lowercase` makes of `s`: the lower-case mapping of each character
/// (a character may map to several, and the mapping depends on its context).
pub uninterp spec fn lowercased(s: Seq<char>) -> Seq<char>;

/// Calls `str::to_lowercase`. Trusted claim: the result depends on the argument
/// alone; what it is goes unsaid here (the Unicode case tables).
#[verifier::external_body]
fn to_lowercase(s: &str) -> (r: String)
    ensures
        r@ == lowercased(s@),
{
    s.to_lowercase()
}

/// `true` when `a` comes strictly before `b` in character order (a proper prefix first).
pub open spec fn lex_lt(a: Seq<char>, b: Seq<char>) -> bool
    decreases a.len(),
{
    if a.len() == 0 {
        b.len() > 0
    } else if b.len() == 0 {
        false
    } else if a[0] < b[0] {
        true
    } else if a[0] > b[0] {
        false
    } else {
        lex_lt(a.drop_first(), b.drop_first())
    }
}

/// Character order is a strict total order.
proof fn lemma_lex_total(a: Seq<char>, b: Seq<char>)
    ensures
        lex_lt(a, b) || a == b || lex_lt(b, a),
        !(lex_lt(a, b) && lex_lt(b, a)),
        !lex_lt(a, a),
    decreases a.len(),
{
    if a.len() > 0 && b.len() > 0 {
        lemma_lex_total(a.drop_first(), b.drop_first());
        lemma_lex_total(a.drop_first(), a.drop_first());
        if a[0] == b[0] && a.drop_first() == b.drop_first() {
            assert(a.len() == b.len());
            assert forall|i: int| 0 <= i < a.len() implies a[i] == b[i] by {
                if i > 0 {
                    assert(a[i] == a.drop_first()[i - 1]);
                    assert(b[i] == b.drop_first()[i - 1]);
                }
            }
            assert(a =~= b);
        }
    } else if a.len() > 0 {
        lemma_lex_total(a.drop_first(), a.drop_first());
    } else if b.len() == 0 {
        assert(a =~= b);
    }
}

/// Character order is transitive.
proof fn lemma_lex_trans(a: Seq<char>, b: Seq<char>, c: Seq<char>)
    requires
        lex_lt(a, b),
        lex_lt(b, c),
    ensures
        lex_lt(a, c),
    decreases a.len(),
{
    if a.len() > 0 && b.len() > 0 && c.len() > 0 && a[0] == b[0] && b[0] == c[0] {
        lemma_lex_trans(a.drop_first(), b.drop_first(), c.drop_first());
    }
}

/// `lex_lt` of two character vectors.
fn lex_less(a: &Vec<char>, b: &Vec<char>) -> (r: bool)
    ensures
        r == lex_lt(a@, b@),
{
    let mut i: usize = 0;
    assert(a@.skip(0) =~= a@ && b@.skip(0) =~= b@);
    while i < a.len() && i < b.len()
        invariant
            i <= a@.len(),
            i <= b@.len(),
            lex_lt(a@, b@) == lex_lt(a@.skip(i as int), b@.skip(i as int)),
        decreases a@.len() - i,
    {
        if a[i] < b[i] {
            return true;
        }
        if a[i] > b[i] {
            return false;
        }
        assert(a@.skip(i as int).drop_first() =~= a@.skip(i + 1));
        assert(b@.skip(i as int).drop_first() =~= b@.skip(i + 1));
        i = i + 1;
    }
    i == a.len() && i < b.len()
}

/// `true` when world `a` is listed before world `b`, their lower-cased names being
/// `keys[a]` and `keys[b]`: by name, equal names in their given order.
pub open spec fn listed_before(keys: Seq<Seq<char>>, a: int, b: int) -> bool {
    lex_lt(keys[a], keys[b]) || (keys[a] == keys[b] && a < b)
}

/// `true` when `order` lists each of `0..n` once, sorted by `listed_before`.
pub open spec fn sorts(order: Seq<usize>, keys: Seq<Seq<char>>, n: int) -> bool {
    &&& order.len() == n
    &&& order.no_duplicates()
    &&& forall|i: int| 0 <= i < order.len() ==> (#[trigger] order[i]) < n
    &&& forall|i: int, j: int| 0 <= i < j < order.len() ==> listed_before(keys, #[trigger] order[i] as int, #[trigger] order[j] as int)
}

/// The order in which worlds named `names` are listed: by name, ignoring case (as
/// `str::to_lowercase` maps it), worlds of equal names in their given order. The
/// result holds the positions of `names`, each once.
pub fn name_order(names: &Vec<String>) -> (order: Vec<usize>)
    ensures
        sorts(order@, names@.map_values(|s: String| lowercased(s@)), names@.len() as int),
{
    let n = names.len();
    let ghost keys = names@.map_values(|s: String| lowercased(s@));
    let mut lowered: Vec<Vec<char>> = Vec::new();
    let mut k: usize = 0;
    while k < n
        invariant
            k <= n,
            n == names@.len(),
            keys == names@.map_values(|s: String| lowercased(s@)),
            lowered@.len() == k,
            forall|i: int| 0 <= i < k ==> (#[trigger] lowered@[i])@ == keys[i],
        decreases n - k,
    {
        let low = to_lowercase(names[k].as_str());
        lowered.push(crate::text::chars_of(low.as_str()));
        k = k + 1;
    }
    let mut order: Vec<usize> = Vec::new();
    let mut k: usize = 0;
    while k < n
        invariant
            k <= n,
            n == names@.len(),
            lowered@.len() == n,
            forall|i: int| 0 <= i < n ==> (#[trigger] lowered@[i])@ == keys[i],
            sorts(order@, keys, k as int),
        decreases n - k,
    {
        let mut p: usize = 0;
        while p < order.len() && !lex_less(&lowered[k], &lowered[order[p]])
            invariant
                p <= order@.len(),
                k < n,
                lowered@.len() == n,
                forall|i: int| 0 <= i < n ==> (#[trigger] lowered@[i])@ == keys[i],
                sorts(order@, keys, k as int),
                forall|i: int| 0 <= i < p ==> !lex_lt(keys[k as int], keys[#[trigger] order@[i] as int]),
            decreases order@.len() - p,
        {
            p = p + 1;
        }
        let ghost old_order = order@;
        order.insert(p, k);
        proof {
            let kk = k as int;
            assert(order@ == old_order.insert(p as int, k));
            assert forall|i: int| 0 <= i < p implies listed_before(keys, #[trigger] old_order[i] as int, kk) by {
                lemma_lex_total(keys[kk], keys[old_order[i] as int]);
            }
            if p < old_order.len() {
                assert(lex_lt(keys[kk], keys[old_order[p as int] as int]));
                assert forall|i: int| p <= i < old_order.len() implies listed_before(keys, kk, #[trigger] old_order[i] as int) by {
                    if i > p {
                        assert(listed_before(keys, old_order[p as int] as int, old_order[i] as int));
                        if lex_lt(keys[old_order[p as int] as int], keys[old_order[i] as int]) {
                            lemma_lex_trans(keys[kk], keys[old_order[p as int] as int], keys[old_order[i] as int]);
                        }
                    }
                }
            }
            assert forall|i: int, j: int| 0 <= i < j < order@.len() implies listed_before(keys, #[trigger] order@[i] as int, #[trigger] order@[j] as int) by {
                if j < p {
                    assert(order@[i] == old_order[i] && order@[j] == old_order[j]);
                } else if j == p {
                    assert(order@[i] == old_order[i] && order@[j] == k);
                } else if i < p {
                    assert(order@[i] == old_order[i] && order@[j] == old_order[j - 1]);
                    assert(listed_before(keys, old_order[i] as int, kk));
                    assert(listed_before(keys, kk, old_order[j - 1] as int));
                    lemma_lex_total(keys[old_order[i] as int], keys[old_order[j - 1] as int]);
                    if lex_lt(keys[old_order[i] as int], keys[kk]) && lex_lt(keys[kk], keys[old_order[j - 1] as int]) {
                        lemma_lex_trans(keys[old_order[i] as int], keys[kk], keys[old_order[j - 1] as int]);
                    } else if lex_lt(keys[old_order[i] as int], keys[kk]) {
                        assert(lex_lt(keys[old_order[i] as int], keys[old_order[j - 1] as int]));
                    } else if lex_lt(keys[kk], keys[old_order[j - 1] as int]) {
                        assert(lex_lt(keys[old_order[i] as int], keys[old_order[j - 1] as int]));
                    }
                } else if i == p {
                    assert(order@[i] == k && order@[j] == old_order[j - 1]);
                } else {
                    assert(order@[i] == old_order[i - 1] && order@[j] == old_order[j - 1]);
                }
            }
            assert forall|i: int, j: int| 0 <= i < order@.len() && 0 <= j < order@.len() && i != j implies order@[i] != order@[j] by {
                if i != p && j != p {
                    let oi = if i < p { i } else { i - 1 };
                    let oj = if j < p { j } else { j - 1 };
                    assert(order@[i] == old_order[oi] && order@[j] == old_order[oj]);
                } else if i == p {
                    let oj = if j < p { j } else { j - 1 };
                    assert(order@[j] == old_order[oj]);
                } else {
                    let oi = if i < p { i } else { i - 1 };
                    assert(order@[i] == old_order[oi]);
                }
            }
            assert forall|i: int| 0 <= i < order@.len() implies (#[trigger] order@[i]) < kk + 1 by {
                if i < p {
                    assert(order@[i] == old_order[i]);
                } else if i > p {
                    assert(order@[i] == old_order[i - 1]);
                }
            }
        }
        k = k + 1;
    }
    order
}

} // verus!
