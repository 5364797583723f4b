use vstd::prelude::*;

verus! {

/// Appends one character: `String::push`. The string afterwards is the old one followed by `c`.
#[verifier::external_body]
pub(crate) fn push_char(s: &mut String, c: char)
    ensures
        final(s)@ == old(s)@.push(c),
{
    s.push(c)
}

/// The characters of `s`, in order.
pub fn chars_of(s: &str) -> (r: Vec<char>)
    ensures
        r@ == s@,
{
    broadcast use vstd::string::group_string_axioms;
    let mut r: Vec<char> = Vec::new();
    for c in it: s.chars()
        invariant
            r@ == it.seq().take(it.index()),
    {
        r.push(c);
    }
    r
}

} // verus!

verus! {

pub open spec fn opt_str(o: Option<String>) -> Option<Seq<char>> {
    match o {
        Some(s) => Some(s@),
        None => None,
    }
}

/// A copy of an optional string.
pub fn opt_string_copy(o: &Option<String>) -> (r: Option<String>)
    ensures
        opt_str(r) == opt_str(*o),
{
    match o {
        Some(s) => Some(s.clone()),
        None => None,
    }
}

} // verus!

verus! {

/// Lexicographic order of character sequences, by code point: the order of `str` and `String`.
pub open spec fn seq_less(a: Seq<char>, b: Seq<char>) -> bool
    decreases a.len(),
{
    if a.len() == 0 {
        b.len() > 0
    } else if b.len() == 0 {
        false
    } else if a[0] != b[0] {
        (a[0] as int) < (b[0] as int)
    } else {
        seq_less(a.drop_first(), b.drop_first())
    }
}

pub proof fn lemma_seq_less_irreflexive(a: Seq<char>)
    ensures
        !seq_less(a, a),
    decreases a.len(),
{
    if a.len() > 0 {
        lemma_seq_less_irreflexive(a.drop_first());
    }
}

pub proof fn lemma_seq_less_transitive(a: Seq<char>, b: Seq<char>, c: Seq<char>)
    requires
        seq_less(a, b),
        seq_less(b, c),
    ensures
        seq_less(a, c),
    decreases a.len(),
{
    if a.len() > 0 && b.len() > 0 && c.len() > 0 {
        if a[0] == b[0] && b[0] == c[0] {
            lemma_seq_less_transitive(a.drop_first(), b.drop_first(), c.drop_first());
        }
    }
}

pub proof fn lemma_seq_less_total(a: Seq<char>, b: Seq<char>)
    ensures
        a == b || seq_less(a, b) || seq_less(b, a),
    decreases a.len(),
{
    if a.len() > 0 && b.len() > 0 {
        if a[0] == b[0] {
            lemma_seq_less_total(a.drop_first(), b.drop_first());
            if a.drop_first() == b.drop_first() {
                assert(a =~= seq![a[0]] + a.drop_first());
                assert(b =~= seq![b[0]] + b.drop_first());
            }
        } else {
            assert((a[0] as int) != (b[0] as int));
        }
    } else if a.len() == 0 && b.len() == 0 {
        assert(a =~= b);
    }
}

pub proof fn lemma_seq_less_asymmetric(a: Seq<char>, b: Seq<char>)
    requires
        seq_less(a, b),
    ensures
        !seq_less(b, a),
{
    if seq_less(b, a) {
        lemma_seq_less_transitive(a, b, a);
        lemma_seq_less_irreflexive(a);
    }
}

/// The outcome of comparing two texts.
#[derive(Debug, Clone, Copy, PartialEq, Eq, Structural)]
pub enum TextOrder {
    Less,
    Equal,
    Greater,
}

pub open spec fn spec_text_order(a: Seq<char>, b: Seq<char>) -> TextOrder {
    if a == b {
        TextOrder::Equal
    } else if seq_less(a, b) {
        TextOrder::Less
    } else {
        TextOrder::Greater
    }
}

/// Compares two texts character by character, as `str::cmp` does.
pub fn text_order(a: &str, b: &str) -> (r: TextOrder)
    ensures
        r == spec_text_order(a@, b@),
        r == TextOrder::Greater ==> seq_less(b@, a@),
{
    let x = chars_of(a);
    let y = chars_of(b);
    let mut k: usize = 0;
    while k < x.len() && k < y.len() && x[k] == y[k]
        invariant
            x@ == a@,
            y@ == b@,
            k <= x@.len(),
            k <= y@.len(),
            x@.take(k as int) == y@.take(k as int),
        decreases x@.len() - k,
    {
        proof {
            assert(x@.take(k + 1) =~= x@.take(k as int).push(x@[k as int]));
            assert(y@.take(k + 1) =~= y@.take(k as int).push(y@[k as int]));
        }
        k = k + 1;
    }
    proof {
        lemma_seq_less_prefix(a@, b@, k as int);
        lemma_seq_less_prefix(b@, a@, k as int);
        lemma_seq_less_irreflexive(a@);
        lemma_seq_less_total(a@, b@);
        if a@ == b@ {
        } else if k == x.len() && k == y.len() {
            assert(a@ =~= x@.take(k as int));
            assert(b@ =~= y@.take(k as int));
        }
    }
    if k == x.len() && k == y.len() {
        TextOrder::Equal
    } else if k == x.len() {
        assert(a@.skip(k as int).len() == 0);
        TextOrder::Less
    } else if k == y.len() {
        assert(b@.skip(k as int).len() == 0);
        TextOrder::Greater
    } else {
        let cx = x[k];
        let cy = y[k];
        assert(a@.skip(k as int)[0] == cx);
        assert(b@.skip(k as int)[0] == cy);
        if cx < cy {
            TextOrder::Less
        } else {
            TextOrder::Greater
        }
    }
}

/// Two sequences that agree on the first `k` characters compare as their remainders do.
pub proof fn lemma_seq_less_prefix(a: Seq<char>, b: Seq<char>, k: int)
    requires
        0 <= k <= a.len(),
        k <= b.len(),
        a.take(k) == b.take(k),
    ensures
        seq_less(a, b) == seq_less(a.skip(k), b.skip(k)),
    decreases k,
{
    if k > 0 {
        assert(a[0] == a.take(k)[0]);
        assert(b[0] == b.take(k)[0]);
        assert(a.drop_first().take(k - 1) =~= a.take(k).drop_first());
        assert(b.drop_first().take(k - 1) =~= b.take(k).drop_first());
        lemma_seq_less_prefix(a.drop_first(), b.drop_first(), k - 1);
        assert(a.drop_first().skip(k - 1) =~= a.skip(k));
        assert(b.drop_first().skip(k - 1) =~= b.skip(k));
    } else {
        assert(a.skip(0) =~= a);
        assert(b.skip(0) =~= b);
    }
}

/// Whether two texts are equal.
pub fn text_equal(a: &str, b: &str) -> (r: bool)
    ensures
        r == (a@ == b@),
{
    text_order(a, b) == TextOrder::Equal
}

} // verus!

verus! {

/// `a` followed by `b`.
pub fn concat2(a: &str, b: &str) -> (r: String)
    ensures
        r@ == a@ + b@,
{
    let mut r = String::from_str(a);
    r.append(b);
    r
}

/// `a`, then `b`, then `c`.
pub fn concat3(a: &str, b: &str, c: &str) -> (r: String)
    ensures
        r@ == a@ + b@ + c@,
{
    let mut r = String::from_str(a);
    r.append(b);
    r.append(c);
    r
}

} // verus!

verus! {

/// The contents of a list of strings.
pub open spec fn string_views(v: Seq<String>) -> Seq<Seq<char>> {
    v.map_values(|s: String| s@)
}

/// Each element of `q` comes strictly before the next, so no element occurs twice.
pub open spec fn strictly_sorted(q: Seq<Seq<char>>) -> bool {
    forall|i: int, j: int| 0 <= i < j < q.len() ==> seq_less(#[trigger] q[i], #[trigger] q[j])
}

/// The sorted list of the texts in a finite set, without repetitions: the order in which a
/// `BTreeSet` or the keys of a `BTreeMap` are walked.
pub open spec fn sorted_texts(s: Set<Seq<char>>) -> Seq<Seq<char>> {
    choose|q: Seq<Seq<char>>| strictly_sorted(q) && q.to_set() == s
}

/// Two strictly sorted lists with the same elements are the same list.
pub proof fn lemma_strictly_sorted_unique(a: Seq<Seq<char>>, b: Seq<Seq<char>>)
    requires
        strictly_sorted(a),
        strictly_sorted(b),
        forall|x: Seq<char>| a.contains(x) <==> b.contains(x),
    ensures
        a == b,
    decreases a.len(),
{
    if a.len() == 0 {
        if b.len() > 0 {
            assert(b.contains(b[0]));
        }
        assert(a =~= b);
    } else {
        assert(a.contains(a.last()));
        let x = a.last();
        assert(b.contains(x));
        let y = b.last();
        assert(b.contains(y));
        if x != y {
            let k = choose|k: int| 0 <= k < a.len() && a[k] == y;
            let m = choose|m: int| 0 <= m < b.len() && b[m] == x;
            assert(k < a.len() - 1);
            assert(m < b.len() - 1);
            assert(seq_less(a[k], a[a.len() - 1]));
            assert(seq_less(b[m], b[b.len() - 1]));
            lemma_seq_less_asymmetric(y, x);
        }
        let a2 = a.drop_last();
        let b2 = b.drop_last();
        assert forall|z: Seq<char>| a2.contains(z) <==> b2.contains(z) by {
            if a2.contains(z) {
                let i = choose|i: int| 0 <= i < a2.len() && a2[i] == z;
                assert(seq_less(a[i], a[a.len() - 1]));
                lemma_seq_less_irreflexive(z);
                assert(a.contains(z));
                let j = choose|j: int| 0 <= j < b.len() && b[j] == z;
                assert(j != b.len() - 1);
                assert(b2[j] == z);
            }
            if b2.contains(z) {
                let i = choose|i: int| 0 <= i < b2.len() && b2[i] == z;
                assert(seq_less(b[i], b[b.len() - 1]));
                lemma_seq_less_irreflexive(z);
                assert(b.contains(z));
                let j = choose|j: int| 0 <= j < a.len() && a[j] == z;
                assert(j != a.len() - 1);
                assert(a2[j] == z);
            }
        }
        assert(strictly_sorted(a2));
        assert(strictly_sorted(b2));
        lemma_strictly_sorted_unique(a2, b2);
        assert(a =~= a2.push(x));
        assert(b =~= b2.push(y));
    }
}

/// A strictly sorted list whose elements form `s` is `sorted_texts(s)`.
pub proof fn lemma_sorted_texts(q: Seq<Seq<char>>, s: Set<Seq<char>>)
    requires
        strictly_sorted(q),
        forall|x: Seq<char>| q.contains(x) <==> s.contains(x),
    ensures
        sorted_texts(s) == q,
{
    assert(q.to_set() =~= s);
    let r = sorted_texts(s);
    assert(strictly_sorted(r) && r.to_set() == s);
    assert forall|x: Seq<char>| r.contains(x) <==> q.contains(x) by {
        assert(r.to_set().contains(x) == r.contains(x));
    }
    lemma_strictly_sorted_unique(r, q);
}

/// Whether `v` holds a string equal to `s`.
pub fn contains_text(v: &Vec<String>, s: &str) -> (r: bool)
    ensures
        r == string_views(v@).contains(s@),
{
    let n = v.len();
    for i in 0..n
        invariant
            n == v@.len(),
            forall|k: int| 0 <= k < i ==> v@[k]@ != s@,
    {
        if text_equal(v[i].as_str(), s) {
            assert(string_views(v@)[i as int] == s@);
            return true;
        }
    }
    proof {
        if string_views(v@).contains(s@) {
            let k = choose|k: int| 0 <= k < string_views(v@).len() && string_views(v@)[k] == s@;
            assert(v@[k]@ == s@);
        }
    }
    false
}

/// Adds `s` to a strictly sorted list unless it is there already; the list stays strictly sorted.
pub fn insert_sorted_text(v: &mut Vec<String>, s: String)
    requires
        strictly_sorted(string_views(old(v)@)),
    ensures
        strictly_sorted(string_views(final(v)@)),
        forall|x: Seq<char>|
            string_views(final(v)@).contains(x) <==> (string_views(old(v)@).contains(x) || x == s@),
{
    let ghost w = string_views(v@);
    let n = v.len();
    let mut k: usize = 0;
    while k < n && text_order(v[k].as_str(), s.as_str()) == TextOrder::Less
        invariant
            n == v@.len(),
            w == string_views(v@),
            k <= n,
            forall|i: int| 0 <= i < k ==> seq_less(#[trigger] w[i], s@),
        decreases n - k,
    {
        k = k + 1;
    }
    if k < n && text_equal(v[k].as_str(), s.as_str()) {
        assert(w[k as int] == s@);
        return;
    }
    proof {
        if k < n {
            lemma_seq_less_total(w[k as int], s@);
            assert(seq_less(s@, w[k as int]));
        }
    }
    v.insert(k, s);
    proof {
        let w2 = string_views(v@);
        assert(w2 =~= w.take(k as int).push(s@) + w.skip(k as int));
        assert forall|i: int, j: int| 0 <= i < j < w2.len() implies seq_less(#[trigger] w2[i], #[trigger] w2[j]) by {
            if j < k {
                assert(w2[i] == w[i] && w2[j] == w[j]);
            } else if j == k {
                assert(w2[i] == w[i]);
            } else if i == k {
                assert(w2[j] == w[j - 1]);
                if j - 1 > k {
                    assert(seq_less(w[k as int], w[j - 1]));
                    lemma_seq_less_transitive(s@, w[k as int], w[j - 1]);
                }
            } else if i < k {
                assert(w2[i] == w[i] && w2[j] == w[j - 1]);
                assert(seq_less(w[i], s@));
                if j - 1 >= k {
                    if j - 1 > k {
                        assert(seq_less(w[k as int], w[j - 1]));
                        lemma_seq_less_transitive(s@, w[k as int], w[j - 1]);
                    }
                    lemma_seq_less_transitive(w[i], s@, w[j - 1]);
                }
            } else {
                assert(w2[i] == w[i - 1] && w2[j] == w[j - 1]);
            }
        }
        assert forall|x: Seq<char>| w2.contains(x) <==> (w.contains(x) || x == s@) by {
            if w2.contains(x) {
                let i = choose|i: int| 0 <= i < w2.len() && w2[i] == x;
                if i < k {
                    assert(w[i] == x);
                } else if i > k {
                    assert(w[i - 1] == x);
                }
            }
            if w.contains(x) {
                let i = choose|i: int| 0 <= i < w.len() && w[i] == x;
                if i < k {
                    assert(w2[i] == x);
                } else {
                    assert(w2[i + 1] == x);
                }
            }
            if x == s@ {
                assert(w2[k as int] == x);
            }
        }
    }
}

/// The first `n` characters of `v`, as a string.
pub fn string_from_chars(v: &Vec<char>, n: usize) -> (r: String)
    requires
        n <= v@.len(),
    ensures
        r@ == v@.take(n as int),
{
    let mut r = String::new();
    for i in 0..n
        invariant
            n <= v@.len(),
            r@ == v@.take(i as int),
    {
        push_char(&mut r, v[i]);
        assert(v@.take(i + 1) =~= v@.take(i as int).push(v@[i as int]));
    }
    r
}

} // verus!

verus! {

/// The decimal digit for `d < 10`.
pub open spec fn digit_char(d: nat) -> char {
    if d == 0 { '0' }
    else if d == 1 { '1' }
    else if d == 2 { '2' }
    else if d == 3 { '3' }
    else if d == 4 { '4' }
    else if d == 5 { '5' }
    else if d == 6 { '6' }
    else if d == 7 { '7' }
    else if d == 8 { '8' }
    else { '9' }
}

/// The decimal notation of `n`, without leading zeros.
pub open spec fn decimal(n: nat) -> Seq<char>
    decreases n,
{
    if n < 10 {
        seq![digit_char(n)]
    } else {
        decimal(n / 10).push(digit_char(n % 10))
    }
}

fn digit(d: u64) -> (c: char)
    requires
        d < 10,
    ensures
        c == digit_char(d as nat),
{
    if d == 0 { '0' }
    else if d == 1 { '1' }
    else if d == 2 { '2' }
    else if d == 3 { '3' }
    else if d == 4 { '4' }
    else if d == 5 { '5' }
    else if d == 6 { '6' }
    else if d == 7 { '7' }
    else if d == 8 { '8' }
    else { '9' }
}

/// Appends the decimal notation of `n`.
pub fn push_decimal(s: &mut String, n: u64)
    ensures
        final(s)@ == old(s)@ + decimal(n as nat),
    decreases n,
{
    if n < 10 {
        push_char(s, digit(n));
        assert(old(s)@.push(digit_char(n as nat)) =~= old(s)@ + decimal(n as nat));
    } else {
        push_decimal(s, n / 10);
        push_char(s, digit(n % 10));
        assert(old(s)@ + decimal((n / 10) as nat) + seq![digit_char((n % 10) as nat)] =~= old(s)@ + decimal(n as nat));
    }
}

/// The decimal notation of `n`.
pub fn decimal_string(n: u64) -> (r: String)
    ensures
        r@ == decimal(n as nat),
{
    let mut r = String::new();
    push_decimal(&mut r, n);
    assert(r@ =~= decimal(n as nat));
    r
}

} // verus!

verus! {

/// Unicode `White_Space`, the property that `char::is_whitespace` and `str::trim` go by.
pub open spec fn is_whitespace(c: char) -> bool {
    let n = c as int;
    (0x9 <= n <= 0xd) || n == 0x20 || n == 0x85 || n == 0xa0 || n == 0x1680 || (0x2000 <= n <= 0x200a)
        || n == 0x2028 || n == 0x2029 || n == 0x202f || n == 0x205f || n == 0x3000
}

pub fn char_is_whitespace(c: char) -> (r: bool)
    ensures
        r == is_whitespace(c),
{
    let n = c as u32;
    (0x9 <= n && n <= 0xd) || n == 0x20 || n == 0x85 || n == 0xa0 || n == 0x1680 || (0x2000 <= n
        && n <= 0x200a) || n == 0x2028 || n == 0x2029 || n == 0x202f || n == 0x205f || n == 0x3000
}

/// `s` without its leading whitespace.
pub open spec fn trim_start(s: Seq<char>) -> Seq<char>
    decreases s.len(),
{
    if s.len() > 0 && is_whitespace(s[0]) {
        trim_start(s.drop_first())
    } else {
        s
    }
}

/// `s` without its trailing whitespace.
pub open spec fn trim_end(s: Seq<char>) -> Seq<char>
    decreases s.len(),
{
    if s.len() > 0 && is_whitespace(s.last()) {
        trim_end(s.drop_last())
    } else {
        s
    }
}

/// `s` without leading and trailing whitespace: `str::trim`.
pub open spec fn trim(s: Seq<char>) -> Seq<char> {
    trim_end(trim_start(s))
}

proof fn lemma_trim_start_skip(s: Seq<char>, i: int)
    requires
        0 <= i <= s.len(),
        forall|k: int| 0 <= k < i ==> is_whitespace(#[trigger] s[k]),
    ensures
        trim_start(s) == trim_start(s.skip(i)),
    decreases i,
{
    if i > 0 {
        assert(s.drop_first().skip(i - 1) =~= s.skip(i));
        assert forall|k: int| 0 <= k < i - 1 implies is_whitespace(#[trigger] s.drop_first()[k]) by {
            assert(s.drop_first()[k] == s[k + 1]);
        }
        lemma_trim_start_skip(s.drop_first(), i - 1);
    } else {
        assert(s.skip(0) =~= s);
    }
}

proof fn lemma_trim_end_take(s: Seq<char>, j: int)
    requires
        0 <= j <= s.len(),
        forall|k: int| j <= k < s.len() ==> is_whitespace(#[trigger] s[k]),
    ensures
        trim_end(s) == trim_end(s.take(j)),
    decreases s.len() - j,
{
    if j < s.len() {
        assert(s.drop_last().take(j) =~= s.take(j));
        assert forall|k: int| j <= k < s.len() - 1 implies is_whitespace(#[trigger] s.drop_last()[k]) by {
            assert(s.drop_last()[k] == s[k]);
        }
        lemma_trim_end_take(s.drop_last(), j);
    } else {
        assert(s.take(j) =~= s);
    }
}

/// The characters of `v` from `lo` up to `hi`, as a string.
pub fn string_from_range(v: &Vec<char>, lo: usize, hi: usize) -> (r: String)
    requires
        lo <= hi <= v@.len(),
    ensures
        r@ == v@.subrange(lo as int, hi as int),
{
    let mut r = String::new();
    for i in lo..hi
        invariant
            lo <= hi <= v@.len(),
            r@ == v@.subrange(lo as int, i as int),
    {
        push_char(&mut r, v[i]);
        assert(v@.subrange(lo as int, i + 1) =~= v@.subrange(lo as int, i as int).push(v@[i as int]));
    }
    r
}

/// `s` without leading and trailing whitespace.
pub fn trim_text(s: &str) -> (r: String)
    ensures
        r@ == trim(s@),
{
    let chars = chars_of(s);
    let n = chars.len();
    let mut i: usize = 0;
    while i < n && char_is_whitespace(chars[i])
        invariant
            n == chars@.len(),
            chars@ == s@,
            i <= n,
            forall|k: int| 0 <= k < i ==> is_whitespace(#[trigger] chars@[k]),
        decreases n - i,
    {
        i = i + 1;
    }
    proof {
        lemma_trim_start_skip(s@, i as int);
        if i < n {
            assert(s@.skip(i as int)[0] == chars@[i as int]);
        }
    }
    let ghost start = s@.skip(i as int);
    assert(trim_start(s@) == start);
    let mut j: usize = n;
    while j > i && char_is_whitespace(chars[j - 1])
        invariant
            n == chars@.len(),
            chars@ == s@,
            i <= j <= n,
            start == s@.skip(i as int),
            forall|k: int| j <= k < n ==> is_whitespace(#[trigger] chars@[k]),
        decreases j,
    {
        j = j - 1;
    }
    proof {
        assert forall|k: int| j - i <= k < start.len() implies is_whitespace(#[trigger] start[k]) by {
            assert(start[k] == chars@[k + i]);
        }
        lemma_trim_end_take(start, j - i);
        assert(start.take(j - i) =~= chars@.subrange(i as int, j as int));
        if j > i {
            assert(start.take(j - i).last() == chars@[j - 1]);
        }
    }
    string_from_range(&chars, i, j)
}

/// The characters of `s` before the first `c`: the first piece of `s.split(c)`.
pub open spec fn before_first(s: Seq<char>, c: char) -> Seq<char>
    decreases s.len(),
{
    if s.len() == 0 {
        s
    } else if s[0] == c {
        Seq::empty()
    } else {
        seq![s[0]] + before_first(s.drop_first(), c)
    }
}

proof fn lemma_before_first(s: Seq<char>, c: char, k: int)
    requires
        0 <= k <= s.len(),
        forall|i: int| 0 <= i < k ==> #[trigger] s[i] != c,
        k == s.len() || s[k] == c,
    ensures
        before_first(s, c) == s.take(k),
    decreases k,
{
    if k > 0 {
        assert forall|i: int| 0 <= i < k - 1 implies #[trigger] s.drop_first()[i] != c by {
            assert(s.drop_first()[i] == s[i + 1]);
        }
        lemma_before_first(s.drop_first(), c, k - 1);
        assert(seq![s[0]] + s.drop_first().take(k - 1) =~= s.take(k));
    } else {
        assert(s.take(0) =~= Seq::<char>::empty());
    }
}

/// The characters of `s` before the first `c`.
pub fn text_before(s: &str, c: char) -> (r: String)
    ensures
        r@ == before_first(s@, c),
{
    let chars = chars_of(s);
    let n = chars.len();
    let mut k: usize = 0;
    while k < n && chars[k] != c
        invariant
            n == chars@.len(),
            chars@ == s@,
            k <= n,
            forall|i: int| 0 <= i < k ==> #[trigger] chars@[i] != c,
        decreases n - k,
    {
        k = k + 1;
    }
    proof {
        lemma_before_first(s@, c, k as int);
    }
    string_from_chars(&chars, k)
}

/// The lower-case form of a text, as `str::to_lowercase` computes it.
pub uninterp spec fn lowercase(s: Seq<char>) -> Seq<char>;

/// `str::to_lowercase`: the lower-case form of `s`, by the Unicode case mapping. The contract
/// names the result and states nothing else of it.
#[verifier::external_body]
pub(crate) fn to_lowercase(s: &str) -> (r: String)
    ensures
        r@ == lowercase(s@),
{
    s.to_lowercase()
}

/// Each character of `s` that `from` holds, replaced by `to`.
pub open spec fn replace_chars(s: Seq<char>, from: Seq<char>, to: char) -> Seq<char> {
    s.map_values(|c: char| if from.contains(c) { to } else { c })
}

/// Each `-`, `.` or space of `s` replaced by `_`.
pub fn replace_separators(s: &str) -> (r: String)
    ensures
        r@ == replace_chars(s@, seq!['-', '.', ' '], '_'),
{
    let chars = chars_of(s);
    let n = chars.len();
    let mut r = String::new();
    let ghost from = seq!['-', '.', ' '];
    for i in 0..n
        invariant
            n == chars@.len(),
            chars@ == s@,
            from == seq!['-', '.', ' '],
            r@ == replace_chars(chars@.take(i as int), from, '_'),
    {
        let c = chars[i];
        let is_sep = c == '-' || c == '.' || c == ' ';
        proof {
            assert(from.contains(c) == is_sep) by {
                if is_sep {
                    if c == '-' { assert(from[0] == c); }
                    if c == '.' { assert(from[1] == c); }
                    if c == ' ' { assert(from[2] == c); }
                }
            }
        }
        if is_sep {
            push_char(&mut r, '_');
        } else {
            push_char(&mut r, c);
        }
        assert(replace_chars(chars@.take(i + 1), from, '_') =~= replace_chars(chars@.take(i as int), from, '_').push(
            if from.contains(c) { '_' } else { c },
        ));
    }
    assert(chars@.take(n as int) =~= chars@);
    r
}

} // verus!
