//! Byte-level text logic: ASCII case folding, substring search, trigram keys,
//! lexicographic byte order and the space-joined indexed text of a row.
use vstd::prelude::*;

verus! {

/// ASCII lower-casing of one byte; every other byte is left alone.
pub open spec fn lower_byte(b: u8) -> u8 {
    if 65 <= b && b <= 90 {
        (b + 32) as u8
    } else {
        b
    }
}

/// Bytewise ASCII case folding.
pub open spec fn lower(s: Seq<u8>) -> Seq<u8> {
    Seq::new(s.len(), |i: int| lower_byte(s[i]))
}

/// `p` stands in `s` starting at byte `i`.
pub open spec fn occurs_at(s: Seq<u8>, p: Seq<u8>, i: int) -> bool {
    0 <= i && i + p.len() <= s.len() && s.subrange(i, i + p.len()) == p
}

/// `p` is a (contiguous) substring of `s`.
pub open spec fn contains(s: Seq<u8>, p: Seq<u8>) -> bool {
    exists|i: int| occurs_at(s, p, i)
}

/// The key of the three bytes of `s` that start at `i`.
pub open spec fn tri_key(s: Seq<u8>, i: int) -> u32 {
    (s[i] as int * 65536 + s[i + 1] as int * 256 + s[i + 2] as int) as u32
}

/// `t` is the key of some three consecutive bytes of `s`.
pub open spec fn has_trigram(s: Seq<u8>, t: u32) -> bool {
    exists|i: int| 0 <= i && i + 3 <= s.len() && #[trigger] tri_key(s, i) == t
}

/// The set of keys of all 3-byte windows of `s` (empty when `s` is shorter than 3).
pub open spec fn trigrams(s: Seq<u8>) -> Set<u32> {
    Set::new(|t: u32| has_trigram(s, t))
}

/// The parts joined by single spaces.
pub open spec fn join_text(parts: Seq<Seq<u8>>) -> Seq<u8>
    decreases parts.len(),
{
    if parts.len() == 0 {
        Seq::empty()
    } else if parts.len() == 1 {
        parts[0]
    } else {
        join_text(parts.drop_last()) + seq![32u8] + parts.last()
    }
}

/// Strict lexicographic order on byte strings; a proper prefix comes first.
pub open spec fn lex_less(x: Seq<u8>, y: Seq<u8>) -> bool
    decreases x.len(),
{
    if x.len() == 0 {
        y.len() > 0
    } else if y.len() == 0 {
        false
    } else if x[0] != y[0] {
        x[0] < y[0]
    } else {
        lex_less(x.drop_first(), y.drop_first())
    }
}

/// For two different byte strings exactly one comes first; none comes before itself.
pub proof fn lemma_lex_total(x: Seq<u8>, y: Seq<u8>)
    ensures
        !lex_less(x, x),
        x != y ==> (lex_less(x, y) != lex_less(y, x)),
        x == y ==> !lex_less(x, y),
    decreases x.len(),
{
    if x.len() > 0 {
        lemma_lex_total(x.drop_first(), x.drop_first());
        if y.len() > 0 && x[0] == y[0] {
            lemma_lex_total(x.drop_first(), y.drop_first());
            if x.drop_first() == y.drop_first() {
                assert(x =~= seq![x[0]] + x.drop_first());
                assert(y =~= seq![y[0]] + y.drop_first());
            }
        }
    } else if y.len() > 0 {
    } else {
        assert(x =~= y);
    }
}

pub fn lower_ascii_byte(b: u8) -> (r: u8)
    ensures
        r == lower_byte(b),
{
    if 65 <= b && b <= 90 {
        b + 32
    } else {
        b
    }
}

/// Bytewise ASCII case folding of `s`.
pub fn ascii_lower(s: &[u8]) -> (r: Vec<u8>)
    ensures
        r@ == lower(s@),
{
    let mut r: Vec<u8> = Vec::with_capacity(s.len());
    let mut i: usize = 0;
    while i < s.len()
        invariant
            i <= s@.len(),
            r@ =~= lower(s@).subrange(0, i as int),
        decreases s@.len() - i,
    {
        r.push(lower_ascii_byte(s[i]));
        i += 1;
    }
    assert(r@ =~= lower(s@));
    r
}

/// Whether `p` stands in `s` at byte `at`.
fn occurs_here(s: &[u8], p: &[u8], at: usize) -> (r: bool)
    requires
        at + p@.len() <= s@.len(),
    ensures
        r == occurs_at(s@, p@, at as int),
{
    let n: usize = s.len();
    let mut j: usize = 0;
    while j < p.len()
        invariant
            n == s@.len(),
            j <= p@.len(),
            at + p@.len() <= s@.len(),
            forall|k: int| 0 <= k < j ==> s@[at + k] == p@[k],
        decreases p@.len() - j,
    {
        if s[at + j] != p[j] {
            assert(s@.subrange(at as int, at + p@.len())[j as int] != p@[j as int]);
            return false;
        }
        j += 1;
    }
    assert(s@.subrange(at as int, at + p@.len()) =~= p@);
    true
}

/// Whether `p` is a substring of `s`.
pub fn contains_bytes(s: &[u8], p: &[u8]) -> (r: bool)
    ensures
        r == contains(s@, p@),
{
    if p.len() > s.len() {
        return false;
    }
    let last: usize = s.len() - p.len();
    let mut i: usize = 0;
    while i <= last
        invariant
            last == s@.len() - p@.len(),
            i <= last + 1,
            forall|k: int| 0 <= k < i ==> !occurs_at(s@, p@, k),
        decreases last + 1 - i,
    {
        if occurs_here(s, p, i) {
            return true;
        }
        if i == last {
            return false;
        }
        i += 1;
    }
    false
}

/// The keys of all 3-byte windows of the case-folded `s`, in order.
pub fn trigram_keys(s: &[u8]) -> (r: Vec<u32>)
    ensures
        s@.len() < 3 ==> r@.len() == 0,
        s@.len() >= 3 ==> r@.len() == s@.len() - 2,
        forall|i: int| 0 <= i < r@.len() ==> r@[i] == tri_key(lower(s@), i),
{
    let low = ascii_lower(s);
    let mut r: Vec<u32> = Vec::new();
    if low.len() < 3 {
        return r;
    }
    let mut i: usize = 0;
    while i < low.len() - 2
        invariant
            low@ == lower(s@),
            low@.len() >= 3,
            i <= low@.len() - 2,
            r@.len() == i,
            forall|k: int| 0 <= k < i ==> r@[k] == tri_key(lower(s@), k),
        decreases low@.len() - i,
    {
        let key: u32 = (low[i] as u32) * 65536 + (low[i + 1] as u32) * 256 + low[i + 2] as u32;
        r.push(key);
        i += 1;
    }
    r
}

/// Lexicographic byte comparison of `x` and `y`.
pub fn lex_compare(x: &[u8], y: &[u8]) -> (r: std::cmp::Ordering)
    ensures
        (r == std::cmp::Ordering::Less) == lex_less(x@, y@),
        (r == std::cmp::Ordering::Greater) == lex_less(y@, x@),
        (r == std::cmp::Ordering::Equal) == (x@ == y@),
{
    proof {
        lemma_lex_total(x@, y@);
    }
    assert(x@.subrange(0, x@.len() as int) =~= x@);
    assert(y@.subrange(0, y@.len() as int) =~= y@);
    assert(x@.subrange(0, 0) =~= y@.subrange(0, 0));
    let mut i: usize = 0;
    while i < x.len() && i < y.len()
        invariant
            i <= x@.len(),
            i <= y@.len(),
            x@.subrange(0, i as int) == y@.subrange(0, i as int),
            lex_less(x@, y@) == lex_less(x@.subrange(i as int, x@.len() as int), y@.subrange(i as int, y@.len() as int)),
            lex_less(y@, x@) == lex_less(y@.subrange(i as int, y@.len() as int), x@.subrange(i as int, x@.len() as int)),
        decreases x@.len() - i,
    {
        let ghost xs = x@.subrange(i as int, x@.len() as int);
        let ghost ys = y@.subrange(i as int, y@.len() as int);
        assert(xs.drop_first() =~= x@.subrange(i + 1, x@.len() as int));
        assert(ys.drop_first() =~= y@.subrange(i + 1, y@.len() as int));
        if x[i] < y[i] {
            return std::cmp::Ordering::Less;
        } else if x[i] > y[i] {
            return std::cmp::Ordering::Greater;
        }
        assert(x@.subrange(0, i + 1) =~= x@.subrange(0, i as int).push(x@[i as int]));
        assert(y@.subrange(0, i + 1) =~= y@.subrange(0, i as int).push(y@[i as int]));
        i += 1;
    }
    if i < y.len() {
        std::cmp::Ordering::Less
    } else if i < x.len() {
        std::cmp::Ordering::Greater
    } else {
        assert(x@ =~= x@.subrange(0, i as int));
        assert(y@ =~= y@.subrange(0, i as int));
        std::cmp::Ordering::Equal
    }
}

/// Case folding keeps the place of every byte.
pub proof fn lemma_lower_occurs(big: Seq<u8>, part: Seq<u8>, q: int, f: Seq<u8>, p: int)
    requires
        occurs_at(big, part, q),
        occurs_at(lower(part), f, p),
    ensures
        occurs_at(lower(big), f, q + p),
{
    assert forall|k: int| 0 <= k < f.len() implies lower(big)[q + p + k] == f[k] by {
        assert(big.subrange(q, q + part.len())[p + k] == big[q + p + k]);
        assert(lower(part).subrange(p, p + f.len())[k] == f[k]);
    }
    assert(lower(big).subrange(q + p, q + p + f.len()) =~= f);
}

/// Every 3-byte window of a substring is a window of the text.
pub proof fn lemma_trigrams_of_occurrence(s: Seq<u8>, f: Seq<u8>, at: int, t: u32)
    requires
        occurs_at(s, f, at),
        has_trigram(f, t),
    ensures
        has_trigram(s, t),
{
    let i = choose|i: int| 0 <= i && i + 3 <= f.len() && #[trigger] tri_key(f, i) == t;
    assert(s.subrange(at, at + f.len())[i] == s[at + i]);
    assert(s.subrange(at, at + f.len())[i + 1] == s[at + i + 1]);
    assert(s.subrange(at, at + f.len())[i + 2] == s[at + i + 2]);
    assert(tri_key(s, at + i) == tri_key(f, i));
}

/// Each part stands in the joined text.
pub proof fn lemma_join_contains_part(parts: Seq<Seq<u8>>, k: int)
    requires
        0 <= k < parts.len(),
    ensures
        exists|q: int| occurs_at(join_text(parts), parts[k], q),
    decreases parts.len(),
{
    let init = parts.drop_last();
    let p = join_text(init);
    let j = join_text(parts);
    if parts.len() == 1 {
        assert(j.subrange(0, parts[k].len() as int) =~= parts[k]);
        assert(occurs_at(j, parts[k], 0));
    } else if k == parts.len() - 1 {
        let q: int = p.len() as int + 1;
        assert(j.subrange(q, q + parts[k].len()) =~= parts[k]);
        assert(occurs_at(j, parts[k], q));
    } else {
        lemma_join_contains_part(init, k);
        let q = choose|q: int| occurs_at(p, init[k], q);
        assert(init[k] == parts[k]);
        assert(j.subrange(q, q + parts[k].len()) =~= p.subrange(q, q + parts[k].len()));
        assert(occurs_at(j, parts[k], q));
    }
}

} // verus!
