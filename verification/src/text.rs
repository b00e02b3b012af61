//! Character-sequence primitives on which the rest of the library is built.
//! Every search and comparison is stated over `Seq<char>`, the view of a
//! `String` or `&str`.

use vstd::prelude::*;

verus! {

/// `pat` occurs in `s` starting at position `i`.
pub open spec fn occurs_at(s: Seq<char>, pat: Seq<char>, i: int) -> bool {
    0 <= i && i + pat.len() <= s.len() && s.subrange(i, i + pat.len()) == pat
}

/// The first position at or after `i` where `pat` occurs in `s`.
pub open spec fn find_from(s: Seq<char>, pat: Seq<char>, i: int) -> Option<int>
    decreases s.len() + 1 - i,
{
    if i < 0 || i + pat.len() > s.len() {
        None
    } else if occurs_at(s, pat, i) {
        Some(i)
    } else {
        find_from(s, pat, i + 1)
    }
}

/// The first position where `pat` occurs in `s` (`str::find` with a string pattern).
pub open spec fn find(s: Seq<char>, pat: Seq<char>) -> Option<int> {
    find_from(s, pat, 0)
}

/// The first position at or after `i` that holds `c`.
pub open spec fn find_char_from(s: Seq<char>, c: char, i: int) -> Option<int>
    decreases s.len() - i,
{
    if i < 0 || i >= s.len() {
        None
    } else if s[i] == c {
        Some(i)
    } else {
        find_char_from(s, c, i + 1)
    }
}

/// The first position that holds `c` (`str::find` with a character pattern).
pub open spec fn find_char(s: Seq<char>, c: char) -> Option<int> {
    find_char_from(s, c, 0)
}

/// The last position before `k` that holds `c`.
pub open spec fn rfind_char_before(s: Seq<char>, c: char, k: int) -> Option<int>
    decreases k,
{
    if k <= 0 || k > s.len() {
        None
    } else if s[k - 1] == c {
        Some(k - 1)
    } else {
        rfind_char_before(s, c, k - 1)
    }
}

/// The last position that holds `c` (`str::rfind` with a character pattern).
pub open spec fn rfind_char(s: Seq<char>, c: char) -> Option<int> {
    rfind_char_before(s, c, s.len() as int)
}

/// `s` up to the first `c`, or the whole of `s` when there is none.
pub open spec fn before_char(s: Seq<char>, c: char) -> Seq<char> {
    match find_char(s, c) {
        Some(i) => s.take(i),
        None => s,
    }
}

/// `s` starts with `p`.
pub open spec fn starts_with(s: Seq<char>, p: Seq<char>) -> bool {
    p.len() <= s.len() && s.take(p.len() as int) == p
}

/// `a` comes strictly before `b` in lexicographic order of characters, which
/// is the order of `str` (UTF-8 keeps the order of code points).
pub open spec fn lex_lt(a: Seq<char>, b: Seq<char>) -> bool
    decreases a.len(),
{
    if b.len() == 0 {
        false
    } else if a.len() == 0 {
        true
    } else if a[0] != b[0] {
        (a[0] as u32) < (b[0] as u32)
    } else {
        lex_lt(a.drop_first(), b.drop_first())
    }
}

/// `a` comes before `b` or equals it.
pub open spec fn lex_le(a: Seq<char>, b: Seq<char>) -> bool {
    lex_lt(a, b) || a == b
}

/// Appends one character to a `String` (`String::push`).
#[verifier::external_body]
pub(crate) fn push_char(s: &mut String, c: char)
    ensures
        final(s)@ == old(s)@.push(c),
{
    s.push(c)
}

/// The characters of `s`, in order.
pub fn chars_of(s: &str) -> (r: Vec<char>)
    ensures
        r@ == s@,
{
    let mut r: Vec<char> = Vec::new();
    for c in it: s.chars()
        invariant
            r@ == it.seq().take(it.index() as int),
    {
        r.push(c);
    }
    r
}

/// A `String` holding the characters of `cs[from..to]`.
pub fn string_of_range(cs: &[char], from: usize, to: usize) -> (r: String)
    requires
        from <= to <= cs@.len(),
    ensures
        r@ == cs@.subrange(from as int, to as int),
{
    let mut r = String::new();
    let mut i = from;
    while i < to
        invariant
            from <= i <= to <= cs@.len(),
            r@ == cs@.subrange(from as int, i as int),
        decreases to - i,
    {
        push_char(&mut r, cs[i]);
        assert(cs@.subrange(from as int, i + 1) == cs@.subrange(from as int, i as int).push(
            cs@[i as int],
        ));
        i += 1;
    }
    r
}

/// A `String` holding the characters of `cs`.
pub fn string_of(cs: &[char]) -> (r: String)
    ensures
        r@ == cs@,
{
    let r = string_of_range(cs, 0, cs.len());
    assert(cs@.subrange(0, cs@.len() as int) == cs@);
    r
}

/// Appends the characters of `cs` to `s`.
pub fn push_chars(s: &mut String, cs: &[char])
    ensures
        final(s)@ == old(s)@ + cs@,
{
    let mut i: usize = 0;
    while i < cs.len()
        invariant
            i <= cs@.len(),
            s@ == old(s)@ + cs@.take(i as int),
        decreases cs.len() - i,
    {
        push_char(s, cs[i]);
        assert(cs@.take(i + 1) == cs@.take(i as int).push(cs@[i as int]));
        i += 1;
    }
    assert(cs@.take(cs@.len() as int) == cs@);
}

/// `pat` occurs in `s` at `i`.
pub fn occurs_at_exec(s: &[char], pat: &[char], i: usize) -> (r: bool)
    ensures
        r == occurs_at(s@, pat@, i as int),
{
    if i > s.len() || pat.len() > s.len() - i {
        return false;
    }
    let mut k: usize = 0;
    while k < pat.len()
        invariant
            i + pat@.len() <= s@.len(),
            s@.len() == s.len(),
            k <= pat@.len(),
            forall|j: int| 0 <= j < k ==> s@[i + j] == pat@[j],
        decreases pat.len() - k,
    {
        if s[i + k] != pat[k] {
            assert(s@.subrange(i as int, i + pat@.len())[k as int] != pat@[k as int]);
            return false;
        }
        k += 1;
    }
    assert(s@.subrange(i as int, i + pat@.len()) =~= pat@);
    true
}

/// The first position at or after `from` where `pat` occurs in `s`.
pub fn find_from_exec(s: &[char], pat: &[char], from: usize) -> (r: Option<usize>)
    requires
        pat@.len() > 0,
    ensures
        r matches Some(i) ==> find_from(s@, pat@, from as int) == Some(i as int) && from <= i
            && i + pat@.len() <= s@.len(),
        r is None ==> find_from(s@, pat@, from as int) is None,
{
    let mut i = from;
    while pat.len() <= s.len() && i <= s.len() - pat.len()
        invariant
            from <= i,
            pat@.len() > 0,
            find_from(s@, pat@, from as int) == find_from(s@, pat@, i as int),
        decreases s.len() + 1 - i,
    {
        if occurs_at_exec(s, pat, i) {
            return Some(i);
        }
        i += 1;
    }
    None
}

/// The first position at or after `from` that holds `c`.
pub fn find_char_from_exec(s: &[char], c: char, from: usize) -> (r: Option<usize>)
    ensures
        r matches Some(i) ==> find_char_from(s@, c, from as int) == Some(i as int) && from <= i
            < s@.len(),
        s@.len() <= usize::MAX,
        r is None ==> find_char_from(s@, c, from as int) is None,
{
    let ghost n = s.len();
    let mut i = from;
    while i < s.len()
        invariant
            from <= i,
            find_char_from(s@, c, from as int) == find_char_from(s@, c, i as int),
        decreases s.len() - i,
    {
        if s[i] == c {
            return Some(i);
        }
        i += 1;
    }
    None
}

/// The last position that holds `c`.
pub fn rfind_char_exec(s: &[char], c: char) -> (r: Option<usize>)
    ensures
        r matches Some(i) ==> rfind_char(s@, c) == Some(i as int) && i < s@.len(),
        s@.len() <= usize::MAX,
        r is None ==> rfind_char(s@, c) is None,
{
    let ghost n = s.len();
    let mut k = s.len();
    while k > 0
        invariant
            k <= s@.len(),
            rfind_char(s@, c) == rfind_char_before(s@, c, k as int),
        decreases k,
    {
        if s[k - 1] == c {
            return Some(k - 1);
        }
        k -= 1;
    }
    None
}

/// `s` starts with `p`.
pub fn starts_with_exec(s: &[char], p: &[char]) -> (r: bool)
    ensures
        r == starts_with(s@, p@),
{
    let r = occurs_at_exec(s, p, 0);
    assert(s@.take(p@.len() as int) == s@.subrange(0, p@.len() as int));
    r
}

/// `a` and `b` hold the same characters.
pub fn chars_eq(a: &[char], b: &[char]) -> (r: bool)
    ensures
        r == (a@ == b@),
{
    if a.len() != b.len() {
        return false;
    }
    let mut i: usize = 0;
    while i < a.len()
        invariant
            a@.len() == b@.len(),
            i <= a@.len(),
            forall|j: int| 0 <= j < i ==> a@[j] == b@[j],
        decreases a.len() - i,
    {
        if a[i] != b[i] {
            return false;
        }
        i += 1;
    }
    assert(a@ =~= b@);
    true
}

/// Two strings hold the same characters.
pub fn str_eq(a: &str, b: &str) -> (r: bool)
    ensures
        r == (a@ == b@),
{
    let ca = chars_of(a);
    let cb = chars_of(b);
    chars_eq(ca.as_slice(), cb.as_slice())
}

/// The characters `cs[from..to]`.
pub fn slice_chars(cs: &[char], from: usize, to: usize) -> (r: Vec<char>)
    requires
        from <= to <= cs@.len(),
    ensures
        r@ == cs@.subrange(from as int, to as int),
{
    let mut r: Vec<char> = Vec::new();
    let mut i = from;
    while i < to
        invariant
            from <= i <= to <= cs@.len(),
            r@ == cs@.subrange(from as int, i as int),
        decreases to - i,
    {
        r.push(cs[i]);
        assert(cs@.subrange(from as int, i + 1) == cs@.subrange(from as int, i as int).push(
            cs@[i as int],
        ));
        i += 1;
    }
    r
}

/// The characters of `cs` from `from` on.
pub fn skip(cs: &[char], from: usize) -> (r: Vec<char>)
    requires
        from <= cs@.len(),
    ensures
        r@ == cs@.skip(from as int),
{
    slice_chars(cs, from, cs.len())
}

/// The characters of `cs` before `to`.
pub fn take(cs: &[char], to: usize) -> (r: Vec<char>)
    requires
        to <= cs@.len(),
    ensures
        r@ == cs@.take(to as int),
{
    slice_chars(cs, 0, to)
}

/// `cs` up to the first `c`, or all of `cs`.
pub fn before_char_exec(cs: &[char], c: char) -> (r: Vec<char>)
    ensures
        r@ == before_char(cs@, c),
{
    match find_char_from_exec(cs, c, 0) {
        Some(i) => take(cs, i),
        None => slice_chars(cs, 0, cs.len()),
    }
}

/// `cs` holds `c`.
pub fn contains_char(cs: &[char], c: char) -> (r: bool)
    ensures
        r == cs@.contains(c),
{
    let mut i: usize = 0;
    while i < cs.len()
        invariant
            i <= cs@.len(),
            forall|j: int| 0 <= j < i ==> cs@[j] != c,
        decreases cs.len() - i,
    {
        if cs[i] == c {
            assert(cs@[i as int] == c);
            return true;
        }
        i += 1;
    }
    false
}

/// A position that `find_char_from` gives lies inside `s` and holds `c`.
pub proof fn lemma_find_char_from_bound(s: Seq<char>, c: char, i: int)
    ensures
        find_char_from(s, c, i) matches Some(j) ==> i <= j < s.len() && s[j] == c,
    decreases s.len() - i,
{
    if !(i < 0 || i >= s.len()) && s[i] != c {
        lemma_find_char_from_bound(s, c, i + 1);
    }
}

/// A position that `rfind_char_before` gives lies before `k` and holds `c`.
pub proof fn lemma_rfind_char_bound(s: Seq<char>, c: char, k: int)
    ensures
        rfind_char_before(s, c, k) matches Some(j) ==> 0 <= j < k <= s.len() && s[j] == c,
    decreases k,
{
    if !(k <= 0 || k > s.len()) && s[k - 1] != c {
        lemma_rfind_char_bound(s, c, k - 1);
    }
}

/// `a` followed by `b`.
pub fn concat_chars(a: &[char], b: &[char]) -> (r: Vec<char>)
    ensures
        r@ == a@ + b@,
{
    let mut r = slice_chars(a, 0, a.len());
    let mut i: usize = 0;
    assert(a@.subrange(0, a@.len() as int) == a@);
    while i < b.len()
        invariant
            i <= b@.len(),
            r@ == a@ + b@.take(i as int),
        decreases b.len() - i,
    {
        r.push(b[i]);
        assert(b@.take(i + 1) == b@.take(i as int).push(b@[i as int]));
        i += 1;
    }
    assert(b@.take(b@.len() as int) == b@);
    r
}

/// `lex_lt` is transitive.
pub proof fn lemma_lex_lt_trans(a: Seq<char>, b: Seq<char>, c: Seq<char>)
    requires
        lex_lt(a, b),
        lex_lt(b, c),
    ensures
        lex_lt(a, c),
    decreases a.len(),
{
    if a.len() > 0 && b.len() > 0 && c.len() > 0 && a[0] == b[0] && b[0] == c[0] {
        lemma_lex_lt_trans(a.drop_first(), b.drop_first(), c.drop_first());
    }
}

/// No sequence comes before itself.
pub proof fn lemma_lex_irreflexive(a: Seq<char>)
    ensures
        !lex_lt(a, a),
    decreases a.len(),
{
    if a.len() > 0 {
        lemma_lex_irreflexive(a.drop_first());
    }
}

/// Of two different sequences, one comes before the other, and never both.
pub proof fn lemma_lex_total(a: Seq<char>, b: Seq<char>)
    ensures
        a == b || lex_lt(a, b) || lex_lt(b, a),
        !(lex_lt(a, b) && lex_lt(b, a)),
    decreases a.len(),
{
    if a.len() > 0 && b.len() > 0 {
        if a[0] == b[0] {
            lemma_lex_total(a.drop_first(), b.drop_first());
            if a.drop_first() == b.drop_first() {
                assert(a =~= seq![a[0]] + a.drop_first());
                assert(b =~= seq![b[0]] + b.drop_first());
            }
        } else {
            vstd::utf8::char_u32_cast(a[0], a[0] as u32);
            vstd::utf8::char_u32_cast(b[0], b[0] as u32);
        }
    } else if a.len() == 0 && b.len() == 0 {
        assert(a =~= b);
    }
}

/// `a` comes strictly before `b` in lexicographic order of characters.
pub fn lex_lt_exec(a: &[char], b: &[char]) -> (r: bool)
    ensures
        r == lex_lt(a@, b@),
{
    let mut i: usize = 0;
    assert(a@.skip(0) =~= a@);
    assert(b@.skip(0) =~= b@);
    while i < a.len() && i < b.len()
        invariant
            i <= a@.len(),
            i <= b@.len(),
            lex_lt(a@, b@) == lex_lt(a@.skip(i as int), b@.skip(i as int)),
        decreases a.len() - i,
    {
        if a[i] != b[i] {
            assert(a@.skip(i as int)[0] == a@[i as int]);
            assert(b@.skip(i as int)[0] == b@[i as int]);
            let x = a[i] as u32;
            let y = b[i] as u32;
            return x < y;
        }
        assert(a@.skip(i as int).drop_first() =~= a@.skip(i + 1));
        assert(b@.skip(i as int).drop_first() =~= b@.skip(i + 1));
        i += 1;
    }
    i < b.len()
}

/// The digit character for `d < 10`.
pub open spec fn digit(d: nat) -> char {
    if d == 0 { '0' } else if d == 1 { '1' } else if d == 2 { '2' } else if d == 3 { '3' }
    else if d == 4 { '4' } else if d == 5 { '5' } else if d == 6 { '6' } else if d == 7 { '7' }
    else if d == 8 { '8' } else { '9' }
}

/// The decimal digits of `n`, without leading zeros (`0` for zero).
pub open spec fn decimal(n: nat) -> Seq<char>
    decreases n,
{
    if n < 10 {
        seq![digit(n)]
    } else {
        decimal(n / 10).push(digit(n % 10))
    }
}

fn digit_exec(d: usize) -> (c: char)
    requires
        d < 10,
    ensures
        c == digit(d as nat),
{
    if d == 0 { '0' } else if d == 1 { '1' } else if d == 2 { '2' } else if d == 3 { '3' }
    else if d == 4 { '4' } else if d == 5 { '5' } else if d == 6 { '6' } else if d == 7 { '7' }
    else if d == 8 { '8' } else { '9' }
}

/// The decimal digits of `n` (`n.to_string()`).
pub fn decimal_string(n: usize) -> (r: String)
    ensures
        r@ == decimal(n as nat),
    decreases n,
{
    if n < 10 {
        let mut r = String::new();
        push_char(&mut r, digit_exec(n));
        assert(r@ =~= seq![digit(n as nat)]);
        r
    } else {
        let mut r = decimal_string(n / 10);
        push_char(&mut r, digit_exec(n % 10));
        r
    }
}

/// The strings of `list` with `sep` between each two.
pub open spec fn join(list: Seq<Seq<char>>, sep: Seq<char>) -> Seq<char>
    decreases list.len(),
{
    if list.len() == 0 {
        Seq::empty()
    } else if list.len() == 1 {
        list[0]
    } else {
        join(list.drop_last(), sep) + sep + list.last()
    }
}

/// The strings of `list` with `sep` between each two (`list.join(sep)`).
pub fn join_strings(list: &Vec<String>, sep: &str) -> (r: String)
    ensures
        r@ == join(list@.map_values(|s: String| s@), sep@),
{
    let ghost lv = list@.map_values(|s: String| s@);
    let mut r = String::new();
    let mut i: usize = 0;
    while i < list.len()
        invariant
            i <= list@.len(),
            lv == list@.map_values(|s: String| s@),
            r@ == join(lv.take(i as int), sep@),
        decreases list.len() - i,
    {
        assert(lv.take(i + 1).drop_last() =~= lv.take(i as int));
        if i > 0 {
            r.append(sep);
        } else {
            assert(r@ =~= Seq::<char>::empty());
        }
        r.append(list[i].as_str());
        proof {
            if i == 0 {
                assert(r@ =~= lv.take(1)[0]);
            }
        }
        i += 1;
    }
    assert(lv.take(list@.len() as int) =~= lv);
    r
}

/// The first position from `k` on of a string that comes after `x`.
pub open spec fn first_after(s: Seq<Seq<char>>, x: Seq<char>, k: int) -> int
    decreases s.len() - k,
{
    if k < 0 || k >= s.len() {
        s.len() as int
    } else if lex_lt(x, s[k]) {
        k
    } else {
        first_after(s, x, k + 1)
    }
}

/// `s` with `x` inserted before the first string that comes after it.
pub open spec fn insert_sorted(s: Seq<Seq<char>>, x: Seq<char>) -> Seq<Seq<char>> {
    let p = first_after(s, x, 0);
    s.take(p).push(x) + s.skip(p)
}

/// The strings in ascending order (`sort`).
pub open spec fn sorted(s: Seq<Seq<char>>) -> Seq<Seq<char>>
    decreases s.len(),
{
    if s.len() == 0 {
        Seq::empty()
    } else {
        insert_sorted(sorted(s.drop_last()), s.last())
    }
}

/// The strings with each run of equal ones kept once (`dedup`).
pub open spec fn dedup(s: Seq<Seq<char>>) -> Seq<Seq<char>>
    decreases s.len(),
{
    if s.len() == 0 {
        Seq::empty()
    } else {
        let d = dedup(s.drop_last());
        if d.len() > 0 && d.last() == s.last() {
            d
        } else {
            d.push(s.last())
        }
    }
}

proof fn lemma_first_after(s: Seq<Seq<char>>, x: Seq<char>, k: int)
    requires
        0 <= k <= s.len(),
    ensures
        k <= first_after(s, x, k) <= s.len(),
    decreases s.len() - k,
{
    if k < s.len() && !lex_lt(x, s[k]) {
        lemma_first_after(s, x, k + 1);
    }
}

fn insertion_point(r: &Vec<String>, x: &[char]) -> (p: usize)
    ensures
        p as int == first_after(r@.map_values(|s: String| s@), x@, 0),
        p <= r@.len(),
{
    let ghost rv = r@.map_values(|s: String| s@);
    let mut p: usize = 0;
    while p < r.len()
        invariant
            p <= r@.len(),
            rv == r@.map_values(|s: String| s@),
            first_after(rv, x@, 0) == first_after(rv, x@, p as int),
        decreases r.len() - p,
    {
        let y = chars_of(r[p].as_str());
        if lex_lt_exec(x, y.as_slice()) {
            return p;
        }
        p += 1;
    }
    p
}

/// The strings in ascending order.
pub fn sort_strings(v: &Vec<String>) -> (r: Vec<String>)
    ensures
        r@.map_values(|s: String| s@) == sorted(v@.map_values(|s: String| s@)),
{
    let ghost vv = v@.map_values(|s: String| s@);
    let mut r: Vec<String> = Vec::new();
    let mut i: usize = 0;
    while i < v.len()
        invariant
            i <= v@.len(),
            vv == v@.map_values(|s: String| s@),
            r@.map_values(|s: String| s@) == sorted(vv.take(i as int)),
        decreases v.len() - i,
    {
        assert(vv.take(i + 1).drop_last() =~= vv.take(i as int));
        let ghost rv = r@.map_values(|s: String| s@);
        let x = chars_of(v[i].as_str());
        let p = insertion_point(&r, x.as_slice());
        let ghost pos = first_after(rv, x@, 0);
        assert(pos == p as int);
        let ghost old_r = r@;
        r.insert(p, v[i].clone());
        assert(r@.map_values(|s: String| s@) =~= rv.take(pos).push(x@) + rv.skip(pos));
        i += 1;
    }
    assert(vv.take(v@.len() as int) =~= vv);
    r
}

/// The strings with each run of equal ones kept once.
pub fn dedup_strings(v: Vec<String>) -> (r: Vec<String>)
    ensures
        r@.map_values(|s: String| s@) == dedup(v@.map_values(|s: String| s@)),
{
    let ghost vv = v@.map_values(|s: String| s@);
    let mut r: Vec<String> = Vec::new();
    let mut i: usize = 0;
    while i < v.len()
        invariant
            i <= v@.len(),
            vv == v@.map_values(|s: String| s@),
            r@.map_values(|s: String| s@) == dedup(vv.take(i as int)),
        decreases v.len() - i,
    {
        assert(vv.take(i + 1).drop_last() =~= vv.take(i as int));
        let ghost old_r = r@.map_values(|s: String| s@);
        let same = r.len() > 0 && str_eq(r[r.len() - 1].as_str(), v[i].as_str());
        if !same {
            r.push(v[i].clone());
            assert(r@.map_values(|s: String| s@) =~= old_r.push(vv[i as int]));
        }
        i += 1;
    }
    assert(vv.take(v@.len() as int) =~= vv);
    r
}

/// The two lists hold the same strings in the same order.
pub fn strings_eq(a: &Vec<String>, b: &Vec<String>) -> (r: bool)
    ensures
        r == (a@.map_values(|s: String| s@) == b@.map_values(|s: String| s@)),
{
    if a.len() != b.len() {
        assert(a@.map_values(|s: String| s@).len() != b@.map_values(|s: String| s@).len());
        return false;
    }
    let mut i: usize = 0;
    while i < a.len()
        invariant
            i <= a@.len(),
            a@.len() == b@.len(),
            forall|j: int| 0 <= j < i ==> a@[j]@ == b@[j]@,
        decreases a.len() - i,
    {
        if !str_eq(a[i].as_str(), b[i].as_str()) {
            assert(a@.map_values(|s: String| s@)[i as int] != b@.map_values(|s: String| s@)[i as int]);
            return false;
        }
        i += 1;
    }
    assert(a@.map_values(|s: String| s@) =~= b@.map_values(|s: String| s@));
    true
}

/// The characters of each string.
pub open spec fn strs(v: Seq<String>) -> Seq<Seq<char>> {
    v.map_values(|s: String| s@)
}

/// The characters of an optional string.
pub open spec fn opt_str(o: Option<String>) -> Option<Seq<char>> {
    match o {
        Some(s) => Some(s@),
        None => None,
    }
}

/// Copies of the strings.
pub fn clone_strings(v: &Vec<String>) -> (r: Vec<String>)
    ensures
        strs(r@) == strs(v@),
{
    let mut r: Vec<String> = Vec::new();
    let mut k: usize = 0;
    while k < v.len()
        invariant
            k <= v@.len(),
            strs(r@) == strs(v@.take(k as int)),
        decreases v.len() - k,
    {
        let ghost old_r = r@;
        let c = v[k].clone();
        r.push(c);
        assert(v@.take(k + 1) =~= v@.take(k as int).push(v@[k as int]));
        assert(strs(r@) =~= strs(old_r).push(c@));
        assert(strs(v@.take(k + 1)) =~= strs(v@.take(k as int)).push(v@[k as int]@));
        k += 1;
    }
    assert(v@.take(v@.len() as int) =~= v@);
    r
}

/// The decimal digits of a wide number.
pub fn decimal_string_wide(n: u128) -> (r: String)
    ensures
        r@ == decimal(n as nat),
    decreases n,
{
    if n < 10 {
        let mut r = String::new();
        push_char(&mut r, digit_exec((n as u8) as usize));
        assert(r@ =~= seq![digit(n as nat)]);
        r
    } else {
        let mut r = decimal_string_wide(n / 10);
        push_char(&mut r, digit_exec(((n % 10) as u8) as usize));
        r
    }
}

/// A copy of an optional string.
pub fn clone_opt(o: &Option<String>) -> (r: Option<String>)
    ensures
        opt_str(r) == opt_str(*o),
{
    match o {
        Some(s) => Some(s.clone()),
        None => None,
    }
}

/// No string of `s` comes before one that precedes it.
pub open spec fn ascending(s: Seq<Seq<char>>) -> bool {
    forall|i: int, j: int| 0 <= i < j < s.len() ==> !lex_lt(#[trigger] s[j], #[trigger] s[i])
}

/// Each string of `s` comes before every one that follows it.
pub open spec fn strictly_ascending(s: Seq<Seq<char>>) -> bool {
    forall|i: int, j: int| 0 <= i < j < s.len() ==> lex_lt(#[trigger] s[i], #[trigger] s[j])
}

proof fn lemma_first_after_below(s: Seq<Seq<char>>, x: Seq<char>, k: int)
    requires
        0 <= k <= s.len(),
    ensures
        k <= first_after(s, x, k) <= s.len(),
        forall|m: int| k <= m < first_after(s, x, k) ==> !lex_lt(x, #[trigger] s[m]),
        first_after(s, x, k) < s.len() ==> lex_lt(x, s[first_after(s, x, k)]),
    decreases s.len() - k,
{
    if k < s.len() && !lex_lt(x, s[k]) {
        lemma_first_after_below(s, x, k + 1);
    }
}

/// Sorting puts the strings in ascending order and keeps them all, each
/// as often.
pub proof fn lemma_sorted_ascending(s: Seq<Seq<char>>)
    ensures
        ascending(sorted(s)),
        sorted(s).to_multiset() == s.to_multiset(),
    decreases s.len(),
{
    if s.len() > 0 {
        let prev = sorted(s.drop_last());
        lemma_sorted_ascending(s.drop_last());
        let x = s.last();
        let p = first_after(prev, x, 0);
        lemma_first_after_below(prev, x, 0);
        let r = prev.take(p).push(x) + prev.skip(p);
        assert(sorted(s) == r);
        assert forall|i: int, j: int| 0 <= i < j < r.len() implies !lex_lt(#[trigger] r[j], #[trigger] r[i]) by {
            if j < p {
                assert(r[i] == prev[i] && r[j] == prev[j]);
            } else if j == p {
                assert(r[j] == x && r[i] == prev[i]);
            } else if i < p {
                assert(r[i] == prev[i] && r[j] == prev[j - 1]);
            } else if i == p {
                assert(r[i] == x && r[j] == prev[j - 1]);
                assert(lex_lt(x, prev[p]));
                lemma_lex_total(x, prev[p]);
                if lex_lt(prev[j - 1], x) {
                    lemma_lex_lt_trans(prev[j - 1], x, prev[p]);
                    if j - 1 > p {
                        assert(!lex_lt(prev[j - 1], prev[p]));
                    } else {
                        lemma_lex_irreflexive(prev[p]);
                    }
                }
            } else {
                assert(r[i] == prev[i - 1] && r[j] == prev[j - 1]);
            }
        }
        assert(prev =~= prev.take(p) + prev.skip(p));
        vstd::seq_lib::lemma_multiset_commutative(prev.take(p).push(x), prev.skip(p));
        vstd::seq_lib::lemma_multiset_commutative(prev.take(p), prev.skip(p));
        assert(s =~= s.drop_last().push(x));
        broadcast use vstd::seq_lib::group_to_multiset_ensures;
        assert(r.to_multiset() =~= prev.to_multiset().insert(x));
    } else {
        assert(sorted(s) =~= s);
    }
}

/// Keeping each run once leaves the strings of an ascending list strictly
/// ascending, ending with its last string.
pub proof fn lemma_dedup_strictly_ascending(s: Seq<Seq<char>>)
    requires
        ascending(s),
    ensures
        strictly_ascending(dedup(s)),
        s.len() > 0 ==> dedup(s).len() > 0 && dedup(s).last() == s.last(),
        forall|i: int| 0 <= i < dedup(s).len() ==> s.contains(#[trigger] dedup(s)[i]),
        forall|i: int| 0 <= i < s.len() ==> dedup(s).contains(#[trigger] s[i]),
    decreases s.len(),
{
    if s.len() > 0 {
        let prev = s.drop_last();
        assert(ascending(prev));
        lemma_dedup_strictly_ascending(prev);
        let d = dedup(prev);
        let x = s.last();
        if !(d.len() > 0 && d.last() == x) {
            let r = d.push(x);
            assert(dedup(s) == r);
            if d.len() > 0 {
                assert(d.last() == prev.last());
                assert(!lex_lt(x, prev.last()));
                lemma_lex_total(x, prev.last());
                assert(lex_lt(d.last(), x));
            }
            assert forall|i: int, j: int| 0 <= i < j < r.len() implies lex_lt(#[trigger] r[i], #[trigger] r[j]) by {
                if j == d.len() {
                    if i < d.len() - 1 {
                        lemma_lex_lt_trans(d[i], d.last(), x);
                    }
                }
            }
            assert forall|i: int| 0 <= i < r.len() implies s.contains(#[trigger] r[i]) by {
                if i < d.len() {
                    let k = choose|k: int| 0 <= k < prev.len() && prev[k] == d[i];
                    assert(s[k] == r[i]);
                } else {
                    assert(s[s.len() - 1] == r[i]);
                }
            }
            assert forall|i: int| 0 <= i < s.len() implies r.contains(#[trigger] s[i]) by {
                if i < prev.len() {
                    assert(prev[i] == s[i]);
                    assert(d.contains(prev[i]));
                    let k = choose|k: int| 0 <= k < d.len() && d[k] == prev[i];
                    assert(r[k] == s[i]);
                } else {
                    assert(r[d.len() as int] == s[i]);
                }
            }
        } else {
            assert forall|i: int| 0 <= i < d.len() implies s.contains(#[trigger] d[i]) by {
                let k = choose|k: int| 0 <= k < prev.len() && prev[k] == d[i];
                assert(s[k] == d[i]);
            }
            assert forall|i: int| 0 <= i < s.len() implies d.contains(#[trigger] s[i]) by {
                if i < prev.len() {
                    assert(prev[i] == s[i]);
                    assert(d.contains(prev[i]));
                } else {
                    assert(d[d.len() - 1] == s[i]);
                }
            }
        }
    }
}

/// Where `find_from` finds `pat`, it occurs, at or after `i`.
pub proof fn lemma_find_from_bound(s: Seq<char>, pat: Seq<char>, i: int)
    ensures
        find_from(s, pat, i) matches Some(p) ==> i <= p && 0 <= p && p + pat.len() <= s.len() && occurs_at(
            s,
            pat,
            p,
        ),
    decreases s.len() + 1 - i,
{
    if !(i < 0 || i + pat.len() > s.len()) && !occurs_at(s, pat, i) {
        lemma_find_from_bound(s, pat, i + 1);
    }
}

/// Mapping keeps two sequences with the same elements, each as often,
/// that way.
pub proof fn lemma_map_same_multiset<A, B>(s1: Seq<A>, s2: Seq<A>, f: spec_fn(A) -> B)
    requires
        s1.to_multiset() == s2.to_multiset(),
    ensures
        s1.map_values(f).to_multiset() == s2.map_values(f).to_multiset(),
    decreases s1.len(),
{
    broadcast use vstd::seq_lib::group_to_multiset_ensures;
    broadcast use vstd::multiset::group_multiset_axioms;
    if s1.len() == 0 {
        assert(s1.to_multiset().len() == s1.len());
        assert(s2.to_multiset().len() == s2.len());
        assert(s2.len() == 0);
        assert(s1.map_values(f) =~= s2.map_values(f));
    } else {
        let x = s1.last();
        let p1 = s1.drop_last();
        assert(s1 =~= p1.push(x));
        assert(s1.to_multiset() =~= p1.to_multiset().insert(x));
        assert(s2.to_multiset().count(x) > 0);
        assert(s2.contains(x));
        let i = choose|i: int| 0 <= i < s2.len() && s2[i] == x;
        let p2 = s2.remove(i);
        assert(p2.to_multiset() =~= s2.to_multiset().remove(x));
        assert(p2.to_multiset() =~= p1.to_multiset());
        lemma_map_same_multiset(p1, p2, f);
        let m2 = s2.map_values(f);
        assert(m2.remove(i) =~= p2.map_values(f));
        assert(m2[i] == f(x));
        assert(m2.remove(i).to_multiset() =~= m2.to_multiset().remove(f(x)));
        assert(s1.map_values(f) =~= p1.map_values(f).push(f(x)));
        assert(s1.map_values(f).to_multiset() =~= p1.map_values(f).to_multiset().insert(f(x)));
        assert(m2.to_multiset().count(f(x)) > 0) by {
            assert(m2.contains(f(x)));
        }
        assert(m2.to_multiset() =~= m2.to_multiset().remove(f(x)).insert(f(x)));
    }
}

/// `lex_le` is a total order.
pub proof fn lemma_lex_le_total_order()
    ensures
        vstd::relations::total_ordering(|a: Seq<char>, b: Seq<char>| lex_le(a, b)),
{
    let leq = |a: Seq<char>, b: Seq<char>| lex_le(a, b);
    assert forall|x: Seq<char>, y: Seq<char>| #[trigger] leq(x, y) && #[trigger] leq(y, x) implies x == y by {
        lemma_lex_total(x, y);
    }
    assert forall|x: Seq<char>, y: Seq<char>, z: Seq<char>| #[trigger] leq(x, y) && #[trigger] leq(y, z) implies leq(x, z) by {
        if lex_lt(x, y) && lex_lt(y, z) {
            lemma_lex_lt_trans(x, y, z);
        }
    }
    assert forall|x: Seq<char>, y: Seq<char>| #[trigger] leq(x, y) || #[trigger] leq(y, x) by {
        lemma_lex_total(x, y);
    }
}

/// Sorting depends only on which strings there are and how often: two
/// lists with the same strings, each as often, sort alike.
pub proof fn lemma_sorted_same_multiset(s1: Seq<Seq<char>>, s2: Seq<Seq<char>>)
    requires
        s1.to_multiset() == s2.to_multiset(),
    ensures
        sorted(s1) == sorted(s2),
{
    let leq = |a: Seq<char>, b: Seq<char>| lex_le(a, b);
    lemma_sorted_ascending(s1);
    lemma_sorted_ascending(s2);
    lemma_lex_le_total_order();
    assert forall|i: int, j: int| 0 <= i < j < sorted(s1).len() implies #[trigger] leq(sorted(s1)[i], sorted(s1)[j]) by {
        lemma_lex_total(sorted(s1)[i], sorted(s1)[j]);
    }
    assert forall|i: int, j: int| 0 <= i < j < sorted(s2).len() implies #[trigger] leq(sorted(s2)[i], sorted(s2)[j]) by {
        lemma_lex_total(sorted(s2)[i], sorted(s2)[j]);
    }
    vstd::seq_lib::lemma_sorted_unique(sorted(s1), sorted(s2), leq);
}

/// Two strictly ascending lists of strings that hold the same strings are
/// the same list.
pub proof fn lemma_strictly_ascending_unique(x: Seq<Seq<char>>, y: Seq<Seq<char>>)
    requires
        strictly_ascending(x),
        strictly_ascending(y),
        forall|e: Seq<char>| x.contains(e) <==> y.contains(e),
    ensures
        x == y,
{
    broadcast use vstd::seq_lib::group_to_multiset_ensures;
    let leq = |a: Seq<char>, b: Seq<char>| lex_le(a, b);
    assert forall|i: int, j: int| 0 <= i < x.len() && 0 <= j < x.len() && i != j implies x[i] != x[j] by {
        if i < j {
            assert(lex_lt(x[i], x[j]));
        } else {
            assert(lex_lt(x[j], x[i]));
        }
        lemma_lex_irreflexive(x[i]);
    }
    assert forall|i: int, j: int| 0 <= i < y.len() && 0 <= j < y.len() && i != j implies y[i] != y[j] by {
        if i < j {
            assert(lex_lt(y[i], y[j]));
        } else {
            assert(lex_lt(y[j], y[i]));
        }
        lemma_lex_irreflexive(y[i]);
    }
    x.lemma_multiset_has_no_duplicates();
    y.lemma_multiset_has_no_duplicates();
    assert forall|e: Seq<char>| x.to_multiset().count(e) == y.to_multiset().count(e) by {
        if x.contains(e) {
            assert(x.to_multiset().contains(e));
            assert(y.to_multiset().contains(e));
        }
    }
    assert(x.to_multiset() =~= y.to_multiset());
    lemma_lex_le_total_order();
    assert forall|i: int, j: int| 0 <= i < j < x.len() implies #[trigger] leq(x[i], x[j]) by {}
    assert forall|i: int, j: int| 0 <= i < j < y.len() implies #[trigger] leq(y[i], y[j]) by {}
    vstd::seq_lib::lemma_sorted_unique(x, y, leq);
}

proof fn lemma_find_char_from_first(s: Seq<char>, c: char, i: int, k: int)
    requires
        0 <= i <= k < s.len(),
        s[k] == c,
        forall|j: int| i <= j < k ==> s[j] != c,
    ensures
        find_char_from(s, c, i) == Some(k),
    decreases k - i,
{
    if i < k {
        lemma_find_char_from_first(s, c, i + 1, k);
    }
}

/// The first position holding `c` is `k` when `s[k]` is `c` and no earlier
/// position holds it.
pub proof fn lemma_find_char_first(s: Seq<char>, c: char, k: int)
    requires
        0 <= k < s.len(),
        s[k] == c,
        forall|j: int| 0 <= j < k ==> s[j] != c,
    ensures
        find_char(s, c) == Some(k),
{
    lemma_find_char_from_first(s, c, 0, k);
}

proof fn lemma_find_char_from_absent(s: Seq<char>, c: char, i: int)
    requires
        0 <= i,
        !s.contains(c),
    ensures
        find_char_from(s, c, i) is None,
    decreases s.len() - i,
{
    if i < s.len() {
        assert(s[i] != c);
        lemma_find_char_from_absent(s, c, i + 1);
    }
}

/// No position holds a character that `s` does not contain.
pub proof fn lemma_find_char_absent(s: Seq<char>, c: char)
    requires
        !s.contains(c),
    ensures
        find_char(s, c) is None,
        before_char(s, c) == s,
{
    lemma_find_char_from_absent(s, c, 0);
}

proof fn lemma_rfind_char_before_last(s: Seq<char>, c: char, m: int, k: int)
    requires
        0 <= k < m <= s.len(),
        s[k] == c,
        forall|j: int| k < j < m ==> s[j] != c,
    ensures
        rfind_char_before(s, c, m) == Some(k),
    decreases m,
{
    if m - 1 > k {
        lemma_rfind_char_before_last(s, c, m - 1, k);
    }
}

/// The last position holding `c` is `k` when `s[k]` is `c` and no later
/// position holds it.
pub proof fn lemma_rfind_char_last(s: Seq<char>, c: char, k: int)
    requires
        0 <= k < s.len(),
        s[k] == c,
        forall|j: int| k < j < s.len() ==> s[j] != c,
    ensures
        rfind_char(s, c) == Some(k),
{
    lemma_rfind_char_before_last(s, c, s.len() as int, k);
}

} // verus!
