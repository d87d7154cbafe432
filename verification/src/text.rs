//! Small string utilities shared by the format detector, the serialisers and
//! the path helpers: character-level equality, appending, ASCII lowercasing
//! and decimal rendering of chunk indices.
use vstd::prelude::*;

verus! {

use vstd::string::StrSliceExecFns;
use vstd::string::StringExecFns;

/// Relies on std's `String::push`: appends exactly one character.
#[verifier::external_body]
pub fn push_char(s: &mut String, c: char)
    ensures
        final(s)@ == old(s)@.push(c),
{
    s.push(c);
}

/// Character-for-character equality of two string slices.
pub fn str_eq(a: &str, b: &str) -> (r: bool)
    ensures
        r == (a@ == b@),
{
    let na = a.unicode_len();
    let nb = b.unicode_len();
    if na != nb {
        proof {
            assert(a@ != b@) by {
                if a@ == b@ {
                    assert(a@.len() == b@.len());
                }
            }
        }
        return false;
    }
    let mut i: usize = 0;
    while i < na
        invariant
            na == a@.len(),
            na == b@.len(),
            0 <= i <= na,
            forall|j: int| 0 <= j < i ==> a@[j] == b@[j],
        decreases na - i,
    {
        if a.get_char(i) != b.get_char(i) {
            proof {
                assert(a@ != b@) by {
                    if a@ == b@ {
                        assert(a@[i as int] == b@[i as int]);
                    }
                }
            }
            return false;
        }
        i += 1;
    }
    proof {
        assert(a@ =~= b@);
    }
    true
}

/// ASCII lowercase of one character; anything outside `'A'..='Z'` is kept.
pub open spec fn spec_lower_char(c: char) -> char {
    if 'A' <= c && c <= 'Z' {
        (((c as u32) + 32) as u8) as char
    } else {
        c
    }
}

/// ASCII lowercase of a character sequence.
pub open spec fn spec_lower(s: Seq<char>) -> Seq<char> {
    s.map_values(|c: char| spec_lower_char(c))
}

/// ASCII-lowercases a string slice into a fresh `String`.
pub fn to_ascii_lowercase(s: &str) -> (r: String)
    ensures
        r@ == spec_lower(s@),
{
    let n = s.unicode_len();
    let mut out = String::new();
    let mut i: usize = 0;
    while i < n
        invariant
            n == s@.len(),
            0 <= i <= n,
            out@ == spec_lower(s@.take(i as int)),
        decreases n - i,
    {
        let c = s.get_char(i);
        let lc: char = if 'A' <= c && c <= 'Z' {
            (((c as u32) + 32) as u8) as char
        } else {
            c
        };
        push_char(&mut out, lc);
        proof {
            assert(lc == spec_lower_char(s@[i as int]));
            assert(s@.take(i + 1).map_values(|c: char| spec_lower_char(c)) =~= s@.take(
                i as int,
            ).map_values(|c: char| spec_lower_char(c)).push(spec_lower_char(s@[i as int])));
        }
        i += 1;
    }
    proof {
        assert(s@.take(n as int) =~= s@);
    }
    out
}

/// The character for one decimal digit.
pub open spec fn spec_digit_char(d: nat) -> char
    recommends
        d < 10,
{
    (((d + 48) as u8) as char)
}

/// The decimal digits of `n`, most significant first, with no leading zeros
/// (a single `'0'` for zero).
pub open spec fn spec_dec_digits(n: nat) -> Seq<char>
    decreases n,
{
    if n < 10 {
        seq![spec_digit_char(n)]
    } else {
        spec_dec_digits(n / 10).push(spec_digit_char(n % 10))
    }
}

/// The decimal digits of `n`, left-padded with `'0'` to at least four
/// characters, as the `{:04}` format of std renders an index.
pub open spec fn spec_index_digits(n: nat) -> Seq<char> {
    let d = spec_dec_digits(n);
    if d.len() == 1 {
        "000"@ + d
    } else if d.len() == 2 {
        "00"@ + d
    } else if d.len() == 3 {
        "0"@ + d
    } else {
        d
    }
}

proof fn lemma_dec_digits_len(n: nat)
    ensures
        spec_dec_digits(n).len() >= 1,
        n < 10 ==> spec_dec_digits(n).len() == 1,
        10 <= n < 100 ==> spec_dec_digits(n).len() == 2,
        100 <= n < 1000 ==> spec_dec_digits(n).len() == 3,
        n >= 1000 ==> spec_dec_digits(n).len() >= 4,
    decreases n,
{
    if n >= 10 {
        lemma_dec_digits_len(n / 10);
    }
}

/// The decimal digits of `n` with no padding.
fn dec_string(n: usize) -> (r: String)
    ensures
        r@ == spec_dec_digits(n as nat),
    decreases n,
{
    if n < 10 {
        let mut s = String::new();
        push_char(&mut s, (((n as u32) + 48) as u8) as char);
        proof {
            assert(Seq::<char>::empty().push(spec_digit_char(n as nat)) =~= seq![
                spec_digit_char(n as nat),
            ]);
        }
        s
    } else {
        let mut s = dec_string(n / 10);
        push_char(&mut s, ((((n % 10) as u32) + 48) as u8) as char);
        s
    }
}

/// Renders a chunk index the way the output file names carry it: decimal,
/// zero-padded to at least four digits.
pub fn index_string(n: usize) -> (r: String)
    ensures
        r@ == spec_index_digits(n as nat),
{
    let digits = dec_string(n);
    proof {
        lemma_dec_digits_len(n as nat);
    }
    if n < 10 {
        String::from_str("000").concat(digits.as_str())
    } else if n < 100 {
        String::from_str("00").concat(digits.as_str())
    } else if n < 1000 {
        String::from_str("0").concat(digits.as_str())
    } else {
        digits
    }
}

/// Lexicographic (code-point) order on character sequences: the order in
/// which std's ordered string maps iterate their keys.
pub open spec fn spec_lex_lt(a: Seq<char>, b: Seq<char>) -> bool
    decreases a.len(),
{
    if b.len() == 0 {
        false
    } else if a.len() == 0 {
        true
    } else if (a[0] as int) < (b[0] as int) {
        true
    } else if (b[0] as int) < (a[0] as int) {
        false
    } else {
        spec_lex_lt(a.drop_first(), b.drop_first())
    }
}

/// Dropping an equal prefix does not change the order of two sequences.
pub proof fn lemma_lex_skip(a: Seq<char>, b: Seq<char>, i: int)
    requires
        0 <= i <= a.len(),
        i <= b.len(),
        forall|j: int| 0 <= j < i ==> a[j] == b[j],
    ensures
        spec_lex_lt(a, b) == spec_lex_lt(a.skip(i), b.skip(i)),
    decreases i,
{
    if i > 0 {
        lemma_lex_skip(a.drop_first(), b.drop_first(), i - 1);
        assert(a.drop_first().skip(i - 1) =~= a.skip(i));
        assert(b.drop_first().skip(i - 1) =~= b.skip(i));
    } else {
        assert(a.skip(0) =~= a);
        assert(b.skip(0) =~= b);
    }
}

/// The order is irreflexive and asymmetric.
pub proof fn lemma_lex_asym(a: Seq<char>, b: Seq<char>)
    ensures
        spec_lex_lt(a, b) ==> !spec_lex_lt(b, a),
    decreases a.len(),
{
    if a.len() > 0 && b.len() > 0 {
        lemma_lex_asym(a.drop_first(), b.drop_first());
    }
}

/// Two sequences that neither precedes are equal.
pub proof fn lemma_lex_connected(a: Seq<char>, b: Seq<char>)
    requires
        !spec_lex_lt(a, b),
        !spec_lex_lt(b, a),
    ensures
        a == b,
    decreases a.len(),
{
    if a.len() == 0 {
        assert(b.len() == 0);
        assert(a =~= b);
    } else if b.len() == 0 {
        assert(spec_lex_lt(b, a));
        assert(false);
    } else {
        assert((a[0] as int) == (b[0] as int));
        assert(a[0] == b[0]);
        lemma_lex_connected(a.drop_first(), b.drop_first());
        assert(a =~= b) by {
            assert forall|j: int| 0 <= j < a.len() implies a[j] == b[j] by {
                if j > 0 {
                    assert(a.drop_first()[j - 1] == b.drop_first()[j - 1]);
                }
            }
        }
    }
}

/// The order is transitive.
pub proof fn lemma_lex_trans(a: Seq<char>, b: Seq<char>, c: Seq<char>)
    requires
        spec_lex_lt(a, b),
        spec_lex_lt(b, c),
    ensures
        spec_lex_lt(a, c),
    decreases a.len(),
{
    assert(b.len() > 0 && c.len() > 0);
    if a.len() == 0 {
    } else {
        let a0 = a[0] as int;
        let b0 = b[0] as int;
        let c0 = c[0] as int;
        if a0 < b0 || b0 < c0 {
            assert(a0 < c0);
        } else {
            assert(a0 == b0 && b0 == c0);
            lemma_lex_trans(a.drop_first(), b.drop_first(), c.drop_first());
        }
    }
}

/// Compares two string slices in lexicographic code-point order.
pub fn str_lt(a: &str, b: &str) -> (r: bool)
    ensures
        r == spec_lex_lt(a@, b@),
{
    let na = a.unicode_len();
    let nb = b.unicode_len();
    let mut i: usize = 0;
    while i < na && i < nb
        invariant
            na == a@.len(),
            nb == b@.len(),
            0 <= i <= na,
            i <= nb,
            forall|j: int| 0 <= j < i ==> a@[j] == b@[j],
        decreases na - i,
    {
        let ca = a.get_char(i);
        let cb = b.get_char(i);
        proof {
            assert(((ca as u32) as int) == (ca as int));
            assert(((cb as u32) as int) == (cb as int));
        }
        if (ca as u32) < (cb as u32) {
            proof {
                lemma_lex_skip(a@, b@, i as int);
            }
            return true;
        }
        if (cb as u32) < (ca as u32) {
            proof {
                lemma_lex_skip(a@, b@, i as int);
            }
            return false;
        }
        i += 1;
    }
    proof {
        lemma_lex_skip(a@, b@, i as int);
        if i == na {
            assert(a@.skip(i as int).len() == 0);
        } else {
            assert(b@.skip(i as int).len() == 0);
        }
    }
    na < nb
}

/// `ks` with `k` inserted at its ordered position; a key already present is
/// left alone.
pub open spec fn spec_insert_key(ks: Seq<Seq<char>>, k: Seq<char>) -> Seq<Seq<char>>
    decreases ks.len(),
{
    if ks.len() == 0 {
        seq![k]
    } else if k == ks[0] {
        ks
    } else if spec_lex_lt(k, ks[0]) {
        seq![k] + ks
    } else {
        seq![ks[0]] + spec_insert_key(ks.drop_first(), k)
    }
}

/// The distinct values of `items` in ascending order, built by ordered
/// insertion from the left.
pub open spec fn spec_sorted_keys(items: Seq<Seq<char>>) -> Seq<Seq<char>>
    decreases items.len(),
{
    if items.len() == 0 {
        Seq::empty()
    } else {
        spec_insert_key(spec_sorted_keys(items.drop_last()), items.last())
    }
}

/// Strictly ascending order of a key sequence.
pub open spec fn spec_keys_sorted(ks: Seq<Seq<char>>) -> bool {
    forall|i: int, j: int| 0 <= i < j < ks.len() ==> spec_lex_lt(ks[i], ks[j])
}

/// Ordered insertion inserts exactly at the scan position: before the first
/// key not below `k`, leaving the list unchanged when that key is `k` itself.
pub proof fn lemma_insert_key_at(ks: Seq<Seq<char>>, k: Seq<char>, j: int)
    requires
        spec_keys_sorted(ks),
        0 <= j <= ks.len(),
        forall|i: int| 0 <= i < j ==> spec_lex_lt(#[trigger] ks[i], k),
        j < ks.len() ==> !spec_lex_lt(ks[j], k),
    ensures
        j < ks.len() && ks[j] == k ==> spec_insert_key(ks, k) == ks,
        !(j < ks.len() && ks[j] == k) ==> spec_insert_key(ks, k) =~= ks.insert(j, k),
    decreases ks.len(),
{
    if ks.len() == 0 {
        assert(spec_insert_key(ks, k) =~= ks.insert(0, k));
    } else if k == ks[0] {
        if j > 0 {
            assert(spec_lex_lt(ks[0], k));
            lemma_lex_asym(k, k);
            assert(false);
        }
    } else if spec_lex_lt(k, ks[0]) {
        if j > 0 {
            lemma_lex_asym(k, ks[0]);
            assert(false);
        }
        assert(spec_insert_key(ks, k) =~= ks.insert(0, k));
    } else {
        assert(spec_lex_lt(ks[0], k)) by {
            if !spec_lex_lt(ks[0], k) {
                lemma_lex_connected(k, ks[0]);
            }
        }
        if j == 0 {
            assert(!spec_lex_lt(ks[0], k));
            assert(false);
        }
        let tail = ks.drop_first();
        assert(spec_keys_sorted(tail)) by {
            assert forall|i1: int, i2: int| 0 <= i1 < i2 < tail.len() implies spec_lex_lt(
                tail[i1],
                tail[i2],
            ) by {
                assert(tail[i1] == ks[i1 + 1] && tail[i2] == ks[i2 + 1]);
            }
        }
        let jt = j - 1;
        assert forall|i: int| 0 <= i < jt implies spec_lex_lt(#[trigger] tail[i], k) by {
            assert(tail[i] == ks[i + 1]);
        }
        if jt < tail.len() {
            assert(tail[jt] == ks[j]);
        }
        lemma_insert_key_at(tail, k, jt);
        let rt = spec_insert_key(tail, k);
        assert(spec_insert_key(ks, k) == seq![ks[0]] + rt);
        if jt < tail.len() && tail[jt] == k {
            assert(ks[j] == k);
            assert(seq![ks[0]] + tail =~= ks);
        } else {
            assert(rt =~= tail.insert(jt, k));
            assert(seq![ks[0]] + rt =~= ks.insert(j, k)) by {
                ks.insert_ensures(j, k);
                tail.insert_ensures(jt, k);
                assert forall|w: int| 0 <= w < (seq![ks[0]] + rt).len() implies (seq![ks[0]]
                    + rt)[w] == ks.insert(j, k)[w] by {
                    if w > 0 {
                        assert((seq![ks[0]] + rt)[w] == rt[w - 1]);
                    }
                }
            }
        }
    }
}

/// What ordered insertion preserves: the result is still strictly sorted, and
/// it holds exactly the old keys and `k`.
pub proof fn lemma_insert_key_props(ks: Seq<Seq<char>>, k: Seq<char>, j: int)
    requires
        spec_keys_sorted(ks),
        0 <= j <= ks.len(),
        forall|i: int| 0 <= i < j ==> spec_lex_lt(#[trigger] ks[i], k),
        j < ks.len() ==> !spec_lex_lt(ks[j], k),
    ensures
        spec_keys_sorted(spec_insert_key(ks, k)),
        forall|x: Seq<char>|
            #[trigger] spec_insert_key(ks, k).contains(x) <==> (ks.contains(x) || x == k),
{
    lemma_insert_key_at(ks, k, j);
    let r = spec_insert_key(ks, k);
    if j < ks.len() && ks[j] == k {
        assert(r == ks);
        assert forall|x: Seq<char>| #[trigger] r.contains(x) <==> (ks.contains(x) || x == k) by {
            if x == k {
                assert(ks[j] == x);
                assert(ks.contains(x));
            }
        }
    } else {
        assert(r =~= ks.insert(j, k));
        ks.insert_ensures(j, k);
        if j < ks.len() {
            assert(spec_lex_lt(k, ks[j])) by {
                if !spec_lex_lt(k, ks[j]) {
                    lemma_lex_connected(ks[j], k);
                }
            }
        }
        assert(spec_keys_sorted(r)) by {
            assert forall|i1: int, i2: int| 0 <= i1 < i2 < r.len() implies spec_lex_lt(
                r[i1],
                r[i2],
            ) by {
                if i1 < j && i2 < j {
                    assert(r[i1] == ks[i1] && r[i2] == ks[i2]);
                } else if i1 < j && i2 == j {
                    assert(r[i1] == ks[i1] && r[i2] == k);
                } else if i1 < j && i2 > j {
                    assert(r[i1] == ks[i1] && r[i2] == ks[i2 - 1]);
                    if i2 - 1 == i1 {
                        assert(spec_lex_lt(ks[i1], k));
                        assert(i1 == j - 1 || i1 < j - 1);
                        assert(spec_lex_lt(k, ks[i2 - 1]) || i2 - 1 < j);
                        if i2 - 1 >= j {
                            lemma_lex_trans(ks[i1], k, ks[i2 - 1]);
                        }
                    }
                } else if i1 == j && i2 > j {
                    assert(r[i1] == k && r[i2] == ks[i2 - 1]);
                    if i2 - 1 == j {
                        assert(spec_lex_lt(k, ks[j]));
                    } else {
                        lemma_lex_trans(k, ks[j], ks[i2 - 1]);
                    }
                } else {
                    assert(i1 > j && i2 > j);
                    assert(r[i1] == ks[i1 - 1] && r[i2] == ks[i2 - 1]);
                }
            }
        }
        assert forall|x: Seq<char>| #[trigger] r.contains(x) <==> (ks.contains(x) || x == k) by {
            if r.contains(x) {
                let w = choose|w: int| 0 <= w < r.len() && r[w] == x;
                if w < j {
                    assert(ks[w] == x);
                    assert(ks.contains(x));
                } else if w == j {
                    assert(x == k);
                } else {
                    assert(ks[w - 1] == x);
                    assert(ks.contains(x));
                }
            }
            if x == k {
                assert(r[j] == k);
                assert(r.contains(x));
            } else if ks.contains(x) {
                let w = choose|w: int| 0 <= w < ks.len() && ks[w] == x;
                if w < j {
                    assert(r[w] == x);
                } else {
                    assert(r[w + 1] == x);
                }
                assert(r.contains(x));
            }
        }
    }
}

/// The position where an ordered scan for `k` stops in `ks`: the first index
/// whose key is not below `k`, or the end.
pub open spec fn spec_scan_pos(ks: Seq<Seq<char>>, k: Seq<char>) -> int
    decreases ks.len(),
{
    if ks.len() == 0 {
        0
    } else if !spec_lex_lt(ks[0], k) {
        0
    } else {
        1 + spec_scan_pos(ks.drop_first(), k)
    }
}

/// The scan position is in range, everything before it is below `k`, and the
/// key at it (when it exists) is not.
pub proof fn lemma_scan_pos_props(ks: Seq<Seq<char>>, k: Seq<char>)
    ensures
        0 <= spec_scan_pos(ks, k) <= ks.len(),
        forall|i: int| 0 <= i < spec_scan_pos(ks, k) ==> spec_lex_lt(#[trigger] ks[i], k),
        spec_scan_pos(ks, k) < ks.len() ==> !spec_lex_lt(ks[spec_scan_pos(ks, k)], k),
    decreases ks.len(),
{
    if ks.len() > 0 && spec_lex_lt(ks[0], k) {
        let tail = ks.drop_first();
        lemma_scan_pos_props(tail, k);
        let j = spec_scan_pos(ks, k);
        assert forall|i: int| 0 <= i < j implies spec_lex_lt(#[trigger] ks[i], k) by {
            if i > 0 {
                assert(tail[i - 1] == ks[i]);
            }
        }
        if j < ks.len() {
            assert(ks[j] == tail[j - 1]);
        }
    }
}

/// The sorted key list of a value sequence is strictly ascending and holds
/// exactly the values that occur.
pub proof fn lemma_sorted_keys_props(items: Seq<Seq<char>>)
    ensures
        spec_keys_sorted(spec_sorted_keys(items)),
        forall|x: Seq<char>| #[trigger] spec_sorted_keys(items).contains(x) <==> items.contains(x),
    decreases items.len(),
{
    if items.len() == 0 {
    } else {
        let rest = items.drop_last();
        lemma_sorted_keys_props(rest);
        let ks = spec_sorted_keys(rest);
        let k = items.last();
        lemma_scan_pos_props(ks, k);
        lemma_insert_key_at(ks, k, spec_scan_pos(ks, k));
        lemma_insert_key_props(ks, k, spec_scan_pos(ks, k));
        assert forall|x: Seq<char>| spec_sorted_keys(items).contains(x) implies items.contains(
            x,
        ) by {
            if x != k {
                assert(rest.contains(x));
                let w = choose|w: int| 0 <= w < rest.len() && rest[w] == x;
                assert(items[w] == x);
            } else {
                assert(items.last() == x);
            }
        }
        assert forall|x: Seq<char>| items.contains(x) implies spec_sorted_keys(items).contains(
            x,
        ) by {
            let w = choose|w: int| 0 <= w < items.len() && items[w] == x;
            if w < items.len() - 1 {
                assert(rest[w] == x);
                assert(rest.contains(x));
                assert(ks.contains(x));
            } else {
                assert(x == k);
            }
            assert(spec_insert_key(ks, k).contains(x));
        }
    }
}

} // verus!
