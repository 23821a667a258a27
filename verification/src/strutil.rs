//! String helpers shared by the cache policies and the task keys: building and
//! splitting instance-prefixed keys, prefix tests, substring replacement, and
//! decimal rendering of counters.

use vstd::prelude::*;
use vstd::string::*;

verus! {

/// The key that instance `id` uses for `rest`, joined with the separator `sep`.
pub open spec fn tagged(id: Seq<char>, sep: char, rest: Seq<char>) -> Seq<char> {
    id + seq![sep] + rest
}

/// Whether `m` is a key of instance `id` under separator `sep`.
pub open spec fn is_tagged(id: Seq<char>, sep: char, m: Seq<char>) -> bool {
    m.len() >= id.len() + 1 && m.take(id.len() as int + 1) == id + seq![sep]
}

/// The part of `m` that follows the instance prefix.
pub open spec fn tag_rest(id: Seq<char>, m: Seq<char>) -> Seq<char> {
    m.skip(id.len() as int + 1)
}

pub proof fn lemma_tagged_roundtrip(id: Seq<char>, sep: char, rest: Seq<char>)
    ensures
        is_tagged(id, sep, tagged(id, sep, rest)),
        tag_rest(id, tagged(id, sep, rest)) == rest,
{
    let m = tagged(id, sep, rest);
    assert(m.take(id.len() as int + 1) =~= id + seq![sep]);
    assert(m.skip(id.len() as int + 1) =~= rest);
}

/// A key of instance `id` is its prefix followed by the stripped remainder.
pub proof fn lemma_tagged_reconstruct(id: Seq<char>, sep: char, m: Seq<char>)
    requires
        is_tagged(id, sep, m),
    ensures
        m == tagged(id, sep, tag_rest(id, m)),
{
    let l = id.len() as int;
    assert forall|j: int| 0 <= j < l + 1 implies m[j] == (id + seq![sep])[j] by {
        assert(m.take(l + 1)[j] == (id + seq![sep])[j]);
    }
    assert(m =~= tagged(id, sep, tag_rest(id, m)));
}

/// Keys of two instances can only coincide when one id is a prefix of the other.
pub proof fn lemma_tag_disjoint(a: Seq<char>, sa: char, b: Seq<char>, sb: char, m: Seq<char>)
    requires
        !a.is_prefix_of(b),
        !b.is_prefix_of(a),
    ensures
        !(is_tagged(a, sa, m) && is_tagged(b, sb, m)),
{
    if is_tagged(a, sa, m) && is_tagged(b, sb, m) {
        assert forall|j: int| 0 <= j < a.len() implies m[j] == a[j] by {
            assert(m.take(a.len() as int + 1)[j] == (a + seq![sa])[j]);
        }
        assert forall|j: int| 0 <= j < b.len() implies m[j] == b[j] by {
            assert(m.take(b.len() as int + 1)[j] == (b + seq![sb])[j]);
        }
        if a.len() <= b.len() {
            assert(a =~= b.take(a.len() as int));
            assert(a.is_prefix_of(b));
        } else {
            assert(b =~= a.take(b.len() as int));
            assert(b.is_prefix_of(a));
        }
    }
}

/// Joins `id`, a one-character separator, and `rest` into one key.
pub fn tag_key(id: &str, sep: &str, rest: &str) -> (r: String)
    requires
        sep@.len() == 1,
    ensures
        r@ == tagged(id@, sep@[0], rest@),
{
    proof {
        assert(sep@ =~= seq![sep@[0]]);
    }
    let r = String::from_str(id).concat(sep).concat(rest);
    proof {
        assert(r@ =~= tagged(id@, sep@[0], rest@));
    }
    r
}

/// Removes an instance prefix of the given length (id plus one separator).
pub fn strip_tag(id: &str, m: &str) -> (r: String)
    requires
        id@.len() + 1 <= m@.len(),
    ensures
        r@ == tag_rest(id@, m@),
{
    let l = id.unicode_len();
    let ml = m.unicode_len();
    String::from_str(m.substring_char(l + 1, ml))
}

/// Whether `p` occurs at the front of `s`.
pub fn str_has_prefix(s: &str, p: &str) -> (r: bool)
    ensures
        r == p@.is_prefix_of(s@),
{
    let sl = s.unicode_len();
    let pl = p.unicode_len();
    if pl > sl {
        return false;
    }
    let mut i: usize = 0;
    while i < pl
        invariant
            i <= pl,
            pl <= sl,
            sl == s@.len(),
            pl == p@.len(),
            forall|j: int| 0 <= j < i ==> s@[j] == p@[j],
        decreases pl - i,
    {
        if s.get_char(i) != p.get_char(i) {
            return false;
        }
        i = i + 1;
    }
    proof {
        assert(p@ =~= s@.take(pl as int));
    }
    true
}

/// First position of `c` in `s`, scanning from the front.
pub fn find_char(s: &str, c: char) -> (r: Option<usize>)
    ensures
        match r {
            Some(i) => i < s@.len() && s@[i as int] == c && forall|j: int|
                0 <= j < i ==> s@[j] != c,
            None => forall|j: int| 0 <= j < s@.len() ==> s@[j] != c,
        },
{
    let n = s.unicode_len();
    let mut i: usize = 0;
    while i < n
        invariant
            i <= n,
            n == s@.len(),
            forall|j: int| 0 <= j < i ==> s@[j] != c,
        decreases n - i,
    {
        if s.get_char(i) == c {
            return Some(i);
        }
        i = i + 1;
    }
    None
}

/// Every occurrence of `pat` in `s` replaced by `to`, scanning left to right
/// without re-examining replaced text. An empty pattern leaves `s` unchanged.
pub open spec fn spec_replace_all(s: Seq<char>, pat: Seq<char>, to: Seq<char>) -> Seq<char>
    decreases s.len(),
{
    if pat.len() == 0 || s.len() < pat.len() {
        s
    } else if s.take(pat.len() as int) == pat {
        to + spec_replace_all(s.skip(pat.len() as int), pat, to)
    } else {
        seq![s[0]] + spec_replace_all(s.skip(1), pat, to)
    }
}

/// Whether `pat` occurs in `s` at position `i`.
fn is_match_at(s: &str, pat: &str, i: usize) -> (r: bool)
    requires
        i <= s@.len(),
    ensures
        r == (i + pat@.len() <= s@.len() && s@.subrange(
            i as int,
            i as int + pat@.len() as int,
        ) == pat@),
{
    let sl = s.unicode_len();
    let pl = pat.unicode_len();
    if pl > sl - i {
        return false;
    }
    let mut j: usize = 0;
    while j < pl
        invariant
            j <= pl,
            i + pl <= sl,
            sl == s@.len(),
            pl == pat@.len(),
            forall|k: int| 0 <= k < j ==> s@[i + k] == pat@[k],
        decreases pl - j,
    {
        if s.get_char(i + j) != pat.get_char(j) {
            return false;
        }
        j = j + 1;
    }
    proof {
        assert(s@.subrange(i as int, i as int + pl as int) =~= pat@);
    }
    true
}

/// Replaces every occurrence of `pat` in `s` by `to`.
pub fn str_replace_all(s: &str, pat: &str, to: &str) -> (r: String)
    ensures
        r@ == spec_replace_all(s@, pat@, to@),
{
    let n = s.unicode_len();
    let m = pat.unicode_len();
    if m == 0 {
        return String::from_str(s);
    }
    let mut out = String::new();
    let mut seg: usize = 0;
    let mut i: usize = 0;
    proof {
        assert(s@.skip(0) =~= s@);
        assert(s@.subrange(0, 0) =~= Seq::<char>::empty());
        assert(out@ + s@.subrange(0, 0) =~= Seq::<char>::empty());
    }
    while i < n
        invariant
            m == pat@.len(),
            m >= 1,
            n == s@.len(),
            seg <= i,
            i <= n,
            out@ + s@.subrange(seg as int, i as int) + spec_replace_all(s@.skip(i as int), pat@, to@)
                == spec_replace_all(s@, pat@, to@),
        decreases n - i,
    {
        if is_match_at(s, pat, i) {
            out.append(s.substring_char(seg, i));
            out.append(to);
            proof {
                assert(s@.skip(i as int).take(m as int) =~= s@.subrange(
                    i as int,
                    i as int + m as int,
                ));
                assert(s@.skip(i as int).skip(m as int) =~= s@.skip(i as int + m as int));
                assert(s@.subrange(seg as int, i as int + m as int).subrange(0, i - seg) =~= s@
                    .subrange(seg as int, i as int));
            }
            i = i + m;
            seg = i;
            proof {
                assert(s@.subrange(seg as int, i as int) =~= Seq::<char>::empty());
            }
        } else {
            proof {
                if s@.skip(i as int).len() >= m {
                    assert(s@.skip(i as int).take(m as int) =~= s@.subrange(
                        i as int,
                        i as int + m as int,
                    ));
                }
                assert(s@.skip(i as int).skip(1) =~= s@.skip(i as int + 1));
                assert(seq![s@.skip(i as int)[0]] =~= s@.subrange(i as int, i as int + 1));
                assert(s@.subrange(seg as int, i as int) + s@.subrange(i as int, i as int + 1)
                    =~= s@.subrange(seg as int, i as int + 1));
            }
            i = i + 1;
        }
    }
    out.append(s.substring_char(seg, n));
    proof {
        assert(s@.skip(n as int).len() == 0);
        assert(spec_replace_all(s@.skip(n as int), pat@, to@) == s@.skip(n as int));
        assert(out@ =~= spec_replace_all(s@, pat@, to@));
    }
    out
}

/// The character for one decimal digit.
pub open spec fn dec_digit(d: nat) -> char {
    ((48 + d) as u8) as char
}

/// The decimal digits of `n`, most significant first.
pub open spec fn spec_u64_dec(n: nat) -> Seq<char>
    decreases n,
{
    if n < 10 {
        seq![dec_digit(n)]
    } else {
        spec_u64_dec(n / 10) + seq![dec_digit(n % 10)]
    }
}

/// The decimal rendering of a signed value: a minus sign for negatives,
/// followed by the digits of the magnitude.
pub open spec fn spec_i64_dec(v: int) -> Seq<char> {
    if v >= 0 {
        spec_u64_dec(v as nat)
    } else {
        seq!['-'] + spec_u64_dec((-v) as nat)
    }
}

/// Relies on u64::to_string, which renders the value in decimal.
#[verifier::external_body]
pub fn u64_to_dec_string(n: u64) -> (r: String)
    ensures
        r@ == spec_u64_dec(n as nat),
{
    n.to_string()
}

/// Relies on i64::to_string, which renders the value in decimal with a
/// leading minus sign when it is negative.
#[verifier::external_body]
pub fn i64_to_dec_string(v: i64) -> (r: String)
    ensures
        r@ == spec_i64_dec(v as int),
{
    v.to_string()
}

} // verus!
