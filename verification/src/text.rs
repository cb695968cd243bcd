//! Character classes, ordering and string building on `Seq<char>` models.
use vstd::prelude::*;

verus! {

/// A character allowed in a placeholder name: an ASCII letter or digit, `_` or `-`.
pub open spec fn is_name_char(c: char) -> bool {
    ('a' <= c && c <= 'z') || ('A' <= c && c <= 'Z') || ('0' <= c && c <= '9') || c == '_'
        || c == '-'
}

/// Checks `is_name_char`.
pub fn name_char(c: char) -> (r: bool)
    ensures
        r == is_name_char(c),
{
    ('a' <= c && c <= 'z') || ('A' <= c && c <= 'Z') || ('0' <= c && c <= '9') || c == '_'
        || c == '-'
}

/// The Unicode `White_Space` characters, which `char::is_whitespace` recognises.
pub open spec fn is_ws(c: char) -> bool {
    ('\u{9}' <= c && c <= '\u{d}') || c == ' ' || c == '\u{85}' || c == '\u{a0}' || c
        == '\u{1680}' || ('\u{2000}' <= c && c <= '\u{200a}') || c == '\u{2028}' || c
        == '\u{2029}' || c == '\u{202f}' || c == '\u{205f}' || c == '\u{3000}'
}

/// Checks `is_ws`.
pub fn whitespace(c: char) -> (r: bool)
    ensures
        r == is_ws(c),
{
    ('\u{9}' <= c && c <= '\u{d}') || c == ' ' || c == '\u{85}' || c == '\u{a0}' || c
        == '\u{1680}' || ('\u{2000}' <= c && c <= '\u{200a}') || c == '\u{2028}' || c
        == '\u{2029}' || c == '\u{202f}' || c == '\u{205f}' || c == '\u{3000}'
}

/// A text made of whitespace only (what `s.trim().is_empty()` tests).
pub open spec fn is_blank(s: Seq<char>) -> bool {
    forall|i: int| 0 <= i < s.len() ==> is_ws(#[trigger] s[i])
}

/// Checks `is_blank`.
pub fn blank(s: &str) -> (r: bool)
    ensures
        r == is_blank(s@),
{
    let n = s.unicode_len();
    let mut i: usize = 0;
    while i < n
        invariant
            n == s@.len(),
            i <= n,
            forall|k: int| 0 <= k < i ==> is_ws(#[trigger] s@[k]),
        decreases n - i,
    {
        if !whitespace(s.get_char(i)) {
            return false;
        }
        i = i + 1;
    }
    true
}

/// Index of the first `c` in `s`, if any.
pub open spec fn first_index_of(s: Seq<char>, c: char) -> Option<int> {
    if exists|i: int| 0 <= i < s.len() && s[i] == c {
        Some(choose|i: int| 0 <= i < s.len() && s[i] == c && forall|k: int| 0 <= k < i ==> s[k] != c)
    } else {
        None
    }
}

/// Finds the first `c` in `s` (what `str::find` with a `char` returns, counted in characters).
pub fn find_char(s: &str, c: char) -> (r: Option<usize>)
    ensures
        r matches Some(i) ==> first_index_of(s@, c) == Some(i as int) && i < s@.len() && s@[i as int]
            == c,
        r is None ==> first_index_of(s@, c) is None,
{
    let n = s.unicode_len();
    let mut i: usize = 0;
    while i < n
        invariant
            n == s@.len(),
            i <= n,
            forall|k: int| 0 <= k < i ==> s@[k] != c,
        decreases n - i,
    {
        if s.get_char(i) == c {
            proof {
                let w = choose|j: int| 0 <= j < s@.len() && s@[j] == c && forall|k: int| 0 <= k < j ==> s@[k] != c;
                assert(0 <= i < s@.len() && s@[i as int] == c && forall|k: int| 0 <= k < i ==> s@[k] != c);
                if w < i {
                } else if w > i {
                    assert(s@[i as int] != c);
                }
            }
            return Some(i);
        }
        i = i + 1;
    }
    None
}

/// Splits `s` at the first `c` (what `str::split_once` with a `char` gives).
pub open spec fn split_once_at(s: Seq<char>, c: char) -> Option<(Seq<char>, Seq<char>)> {
    match first_index_of(s, c) {
        Some(i) => Some((s.take(i), s.skip(i + 1))),
        None => None,
    }
}

/// Splits `s` at its first `c`; the parts are owned strings.
pub fn split_once_char(s: &str, c: char) -> (r: Option<(String, String)>)
    ensures
        r matches Some(p) ==> split_once_at(s@, c) == Some((p.0@, p.1@)),
        r is None ==> split_once_at(s@, c) is None,
{
    match find_char(s, c) {
        Some(i) => {
            let n = s.unicode_len();
            let left = String::from_str(s.substring_char(0, i));
            let right = String::from_str(s.substring_char(i + 1, n));
            assert(s@.take(i as int) =~= s@.subrange(0, i as int));
            assert(s@.skip(i + 1) =~= s@.subrange(i + 1, n as int));
            Some((left, right))
        },
        None => None,
    }
}

/// `s` without one trailing carriage return, if it ends with one.
pub open spec fn strip_cr(s: Seq<char>) -> Seq<char> {
    if s.len() > 0 && s.last() == '\r' {
        s.drop_last()
    } else {
        s
    }
}

/// The lines of a text, as `str::lines` yields them: split at each `\n`, with a `\r` just
/// before a `\n` dropped, and no empty line after a final `\n`.
pub open spec fn text_lines(s: Seq<char>) -> Seq<Seq<char>>
    decreases s.len(),
{
    if s.len() == 0 {
        seq![]
    } else {
        match split_once_at(s, '\n') {
            None => seq![s],
            Some((line, rest)) => if rest.len() < s.len() {
                seq![strip_cr(line)] + text_lines(rest)
            } else {
                seq![]
            },
        }
    }
}

proof fn lemma_first_exists(s: Seq<char>, c: char, j: int)
    requires
        0 <= j < s.len(),
        s[j] == c,
    ensures
        exists|i: int| 0 <= i < s.len() && s[i] == c && forall|k: int| 0 <= k < i ==> s[k] != c,
    decreases j,
{
    if exists|k: int| 0 <= k < j && s[k] == c {
        let k = choose|k: int| 0 <= k < j && s[k] == c;
        lemma_first_exists(s, c, k);
    } else {
        assert(0 <= j < s.len() && s[j] == c && forall|k: int| 0 <= k < j ==> s[k] != c);
    }
}

/// The first index of a character, when there is one, holds it, and none comes before it.
pub proof fn lemma_first_index_of(s: Seq<char>, c: char)
    ensures
        first_index_of(s, c) matches Some(i) ==> 0 <= i < s.len() && s[i] == c && forall|k: int|
            0 <= k < i ==> s[k] != c,
{
    if exists|j: int| 0 <= j < s.len() && s[j] == c {
        let j = choose|j: int| 0 <= j < s.len() && s[j] == c;
        lemma_first_exists(s, c, j);
    }
}

proof fn lemma_split_shorter(s: Seq<char>)
    requires
        split_once_at(s, '\n') is Some,
    ensures
        split_once_at(s, '\n')->Some_0.1.len() < s.len(),
{
    lemma_first_index_of(s, '\n');
}

/// Splits a text into its lines (see `text_lines`).
pub fn lines_of(s: &str) -> (r: Vec<String>)
    ensures
        views(r@) == text_lines(s@),
{
    let mut out: Vec<String> = Vec::new();
    let mut rest = owned(s);
    let ghost total = s@;
    while rest.unicode_len() > 0
        invariant
            total == s@,
            views(out@) + text_lines(rest@) == text_lines(total),
        decreases rest@.len(),
    {
        match split_once_char(rest.as_str(), '\n') {
            Some((line, tail)) => {
                proof {
                    lemma_split_shorter(rest@);
                }
                let n = line.unicode_len();
                let kept = if n > 0 && line.get_char(n - 1) == '\r' {
                    String::from_str(line.as_str().substring_char(0, n - 1))
                } else {
                    line
                };
                assert(kept@ == strip_cr(line@)) by {
                    if n > 0 && line@.last() == '\r' {
                        assert(line@.drop_last() =~= line@.subrange(0, n - 1));
                    }
                }
                let ghost before = views(out@);
                out.push(kept);
                assert(views(out@) =~= before.push(kept@));
                assert(text_lines(rest@) == seq![kept@] + text_lines(tail@));
                assert(views(out@) + text_lines(tail@) =~= before + text_lines(rest@));
                rest = tail;
            },
            None => {
                let ghost before = views(out@);
                let ghost r = rest@;
                assert(text_lines(r) == seq![r]);
                out.push(rest);
                assert(views(out@) =~= before + text_lines(r));
                return out;
            },
        }
    }
    assert(text_lines(rest@) =~= Seq::<Seq<char>>::empty());
    assert(views(out@) =~= views(out@) + text_lines(rest@));
    out
}

/// The characters of a string.
pub fn chars_of(s: &str) -> (r: Vec<char>)
    ensures
        r@ == s@,
{
    let n = s.unicode_len();
    let mut out: Vec<char> = Vec::new();
    let mut i: usize = 0;
    while i < n
        invariant
            n == s@.len(),
            i <= n,
            out@ == s@.take(i as int),
        decreases n - i,
    {
        out.push(s.get_char(i));
        i = i + 1;
        assert(out@ =~= s@.take(i as int));
    }
    assert(out@ =~= s@);
    out
}

/// Owned copy of a string slice.
pub fn owned(s: &str) -> (r: String)
    ensures
        r@ == s@,
{
    String::from_str(s)
}

/// Appends one character to a string (`String::push`).
#[verifier::external_body]
pub(crate) fn push_char(s: &mut String, c: char)
    ensures
        final(s)@ == old(s)@.push(c),
{
    s.push(c);
}

/// Removes the last character of a string (`String::pop`).
#[verifier::external_body]
pub(crate) fn pop_char(s: &mut String) -> (r: Option<char>)
    ensures
        old(s)@.len() == 0 ==> r is None && final(s)@ == old(s)@,
        old(s)@.len() > 0 ==> r == Some(old(s)@.last()) && final(s)@ == old(s)@.drop_last(),
{
    s.pop()
}

/// The character of a decimal digit.
pub open spec fn digit_char(d: int) -> char {
    if d == 0 {
        '0'
    } else if d == 1 {
        '1'
    } else if d == 2 {
        '2'
    } else if d == 3 {
        '3'
    } else if d == 4 {
        '4'
    } else if d == 5 {
        '5'
    } else if d == 6 {
        '6'
    } else if d == 7 {
        '7'
    } else if d == 8 {
        '8'
    } else {
        '9'
    }
}

/// The decimal digits of a natural number, without leading zeros.
pub open spec fn nat_text(n: nat) -> Seq<char>
    decreases n,
{
    if n < 10 {
        seq![digit_char(n as int)]
    } else {
        nat_text(n / 10).push(digit_char((n % 10) as int))
    }
}

/// The decimal text of an integer, with a `-` before a negative one.
pub open spec fn int_text(i: int) -> Seq<char> {
    if i < 0 {
        seq!['-'] + nat_text((-i) as nat)
    } else {
        nat_text(i as nat)
    }
}

fn push_digits(n: u64, out: &mut String)
    ensures
        final(out)@ == old(out)@ + nat_text(n as nat),
    decreases n,
{
    let ghost start = out@;
    if n >= 10 {
        push_digits(n / 10, out);
    }
    let d = n % 10;
    let c = if d == 0 {
        '0'
    } else if d == 1 {
        '1'
    } else if d == 2 {
        '2'
    } else if d == 3 {
        '3'
    } else if d == 4 {
        '4'
    } else if d == 5 {
        '5'
    } else if d == 6 {
        '6'
    } else if d == 7 {
        '7'
    } else if d == 8 {
        '8'
    } else {
        '9'
    };
    push_char(out, c);
    if n >= 10 {
        assert(out@ =~= start + nat_text(n as nat));
    } else {
        assert(out@ =~= start + nat_text(n as nat));
    }
}

/// The decimal text of a number (what `Display` writes for an `i32`).
pub fn decimal(i: i32) -> (r: String)
    ensures
        r@ == int_text(i as int),
{
    let mut out = String::new();
    if i < 0 {
        push_char(&mut out, '-');
        let m: i64 = -(i as i64);
        push_digits(m as u64, &mut out);
    } else {
        push_digits(i as u64, &mut out);
    }
    out
}

/// Whether `s` begins with `prefix`.
pub fn starts_with_text(s: &str, prefix: &str) -> (r: bool)
    ensures
        r == (prefix@.len() <= s@.len() && s@.take(prefix@.len() as int) == prefix@),
{
    let n = s.unicode_len();
    let m = prefix.unicode_len();
    if m > n {
        return false;
    }
    let mut i: usize = 0;
    while i < m
        invariant
            n == s@.len(),
            m == prefix@.len(),
            m <= n,
            i <= m,
            forall|k: int| 0 <= k < i ==> s@[k] == prefix@[k],
        decreases m - i,
    {
        if s.get_char(i) != prefix.get_char(i) {
            assert(s@.take(m as int)[i as int] != prefix@[i as int]);
            return false;
        }
        i = i + 1;
    }
    assert(s@.take(m as int) =~= prefix@);
    true
}

/// The lexicographic order of `String` (`str` compares by code points).
pub open spec fn seq_lt(a: Seq<char>, b: Seq<char>) -> bool
    decreases a.len(),
{
    if a.len() == 0 {
        b.len() > 0
    } else if b.len() == 0 {
        false
    } else if a[0] != b[0] {
        a[0] < b[0]
    } else {
        seq_lt(a.drop_first(), b.drop_first())
    }
}

pub proof fn lemma_lt_irreflexive(a: Seq<char>)
    ensures
        !seq_lt(a, a),
    decreases a.len(),
{
    if a.len() > 0 {
        lemma_lt_irreflexive(a.drop_first());
    }
}

pub proof fn lemma_lt_transitive(a: Seq<char>, b: Seq<char>, c: Seq<char>)
    requires
        seq_lt(a, b),
        seq_lt(b, c),
    ensures
        seq_lt(a, c),
    decreases a.len(),
{
    if a.len() > 0 && b.len() > 0 && c.len() > 0 {
        if a[0] == b[0] && b[0] == c[0] {
            lemma_lt_transitive(a.drop_first(), b.drop_first(), c.drop_first());
        }
    }
}

pub proof fn lemma_lt_total(a: Seq<char>, b: Seq<char>)
    requires
        a != b,
    ensures
        seq_lt(a, b) || seq_lt(b, a),
    decreases a.len(),
{
    if a.len() == 0 {
        assert(b.len() != 0) by {
            if b.len() == 0 {
                assert(a =~= b);
            }
        }
    } else if b.len() == 0 {
    } else if a[0] == b[0] {
        if a.drop_first() == b.drop_first() {
            assert(a =~= seq![a[0]] + a.drop_first());
            assert(b =~= seq![b[0]] + b.drop_first());
        }
        lemma_lt_total(a.drop_first(), b.drop_first());
    }
}

pub proof fn lemma_lt_asymmetric(a: Seq<char>, b: Seq<char>)
    requires
        seq_lt(a, b),
    ensures
        !seq_lt(b, a),
{
    if seq_lt(b, a) {
        lemma_lt_transitive(a, b, a);
        lemma_lt_irreflexive(a);
    }
}

/// Compares two texts in the order of `seq_lt`.
pub fn text_lt(a: &str, b: &str) -> (r: bool)
    ensures
        r == seq_lt(a@, b@),
{
    let na = a.unicode_len();
    let nb = b.unicode_len();
    let mut i: usize = 0;
    assert(a@.skip(0) =~= a@);
    assert(b@.skip(0) =~= b@);
    while i < na && i < nb
        invariant
            na == a@.len(),
            nb == b@.len(),
            i <= na,
            i <= nb,
            seq_lt(a@, b@) == seq_lt(a@.skip(i as int), b@.skip(i as int)),
        decreases na - i,
    {
        let ca = a.get_char(i);
        let cb = b.get_char(i);
        assert(a@.skip(i as int)[0] == ca);
        assert(b@.skip(i as int)[0] == cb);
        if ca != cb {
            return ca < cb;
        }
        assert(a@.skip(i as int).drop_first() =~= a@.skip(i + 1));
        assert(b@.skip(i as int).drop_first() =~= b@.skip(i + 1));
        i = i + 1;
    }
    na < nb
}

/// Compares two texts for equality, character by character.
pub fn text_eq(a: &str, b: &str) -> (r: bool)
    ensures
        r == (a@ == b@),
{
    let na = a.unicode_len();
    let nb = b.unicode_len();
    if na != nb {
        return false;
    }
    let mut i: usize = 0;
    while i < na
        invariant
            na == a@.len(),
            nb == b@.len(),
            na == nb,
            i <= na,
            forall|k: int| 0 <= k < i ==> a@[k] == b@[k],
        decreases na - i,
    {
        if a.get_char(i) != b.get_char(i) {
            return false;
        }
        i = i + 1;
    }
    assert(a@ =~= b@);
    true
}

/// The texts of a sequence of strings.
pub open spec fn views(v: Seq<String>) -> Seq<Seq<char>> {
    v.map_values(|s: String| s@)
}

/// Strictly increasing in the order of `seq_lt` (so no text occurs twice).
pub open spec fn strictly_sorted(s: Seq<Seq<char>>) -> bool {
    forall|i: int, j: int| 0 <= i < j < s.len() ==> seq_lt(#[trigger] s[i], #[trigger] s[j])
}

/// A listing of `set` in increasing order.
pub open spec fn is_listing(s: Seq<Seq<char>>, set: Set<Seq<char>>) -> bool {
    strictly_sorted(s) && s.to_set() == set
}

/// The increasing listing of a finite set of texts (what collecting a `BTreeSet<String>` or
/// sorting a list of distinct strings yields).
pub open spec fn sorted_listing(set: Set<Seq<char>>) -> Seq<Seq<char>> {
    choose|s: Seq<Seq<char>>| is_listing(s, set)
}

/// Two increasing listings of one set are equal.
pub proof fn lemma_listing_unique(s1: Seq<Seq<char>>, s2: Seq<Seq<char>>)
    requires
        strictly_sorted(s1),
        strictly_sorted(s2),
        s1.to_set() == s2.to_set(),
    ensures
        s1 == s2,
    decreases s1.len(),
{
    if s1.len() == 0 {
        if s2.len() > 0 {
            assert(s2.to_set().contains(s2[0]));
            assert(!s1.to_set().contains(s2[0]));
        }
        assert(s1 =~= s2);
    } else {
        assert(s1.to_set().contains(s1[0]));
        assert(s2.to_set().contains(s1[0]));
        assert(s2.len() > 0);
        assert(s1.to_set().contains(s2[0]));
        let i = choose|i: int| 0 <= i < s1.len() && s1[i] == s2[0];
        let j = choose|j: int| 0 <= j < s2.len() && s2[j] == s1[0];
        if i > 0 {
            assert(seq_lt(s1[0], s1[i]));
            if j > 0 {
                assert(seq_lt(s2[0], s2[j]));
                lemma_lt_asymmetric(s1[0], s2[0]);
            } else {
                lemma_lt_irreflexive(s1[0]);
            }
        }
        assert(s1[0] == s2[0]);
        let t1 = s1.drop_first();
        let t2 = s2.drop_first();
        assert forall|x: Seq<char>| t1.to_set().contains(x) implies t2.to_set().contains(x) by {
            let a = choose|a: int| 0 <= a < t1.len() && t1[a] == x;
            assert(s1[a + 1] == x);
            assert(seq_lt(s1[0], x));
            assert(s2.to_set().contains(x));
            let b = choose|b: int| 0 <= b < s2.len() && s2[b] == x;
            if b == 0 {
                lemma_lt_irreflexive(x);
            }
            assert(t2[b - 1] == x);
        }
        assert forall|x: Seq<char>| t2.to_set().contains(x) implies t1.to_set().contains(x) by {
            let a = choose|a: int| 0 <= a < t2.len() && t2[a] == x;
            assert(s2[a + 1] == x);
            assert(seq_lt(s2[0], x));
            assert(s1.to_set().contains(x));
            let b = choose|b: int| 0 <= b < s1.len() && s1[b] == x;
            if b == 0 {
                lemma_lt_irreflexive(x);
            }
            assert(t1[b - 1] == x);
        }
        assert(t1.to_set() =~= t2.to_set());
        lemma_listing_unique(t1, t2);
        assert(s1 =~= seq![s1[0]] + t1);
        assert(s2 =~= seq![s2[0]] + t2);
    }
}

/// A listing of `set` is the listing `sorted_listing(set)`.
pub proof fn lemma_listing_is_sorted_listing(s: Seq<Seq<char>>, set: Set<Seq<char>>)
    requires
        is_listing(s, set),
    ensures
        sorted_listing(set) == s,
{
    let t = sorted_listing(set);
    assert(is_listing(t, set));
    lemma_listing_unique(s, t);
}

/// `x` inserted into the increasing list `l` before the first text not below it.
pub open spec fn insert_in_order(l: Seq<Seq<char>>, x: Seq<char>) -> Seq<Seq<char>>
    decreases l.len(),
{
    if l.len() == 0 {
        seq![x]
    } else if seq_lt(l[0], x) {
        seq![l[0]] + insert_in_order(l.drop_first(), x)
    } else {
        seq![x] + l
    }
}

proof fn lemma_insert_in_order(l: Seq<Seq<char>>, x: Seq<char>)
    requires
        strictly_sorted(l),
        !l.contains(x),
    ensures
        strictly_sorted(insert_in_order(l, x)),
        forall|y: Seq<char>| #[trigger] insert_in_order(l, x).contains(y) <==> l.contains(y) || y == x,
    decreases l.len(),
{
    let r = insert_in_order(l, x);
    if l.len() == 0 {
        assert forall|y: Seq<char>| #[trigger] r.contains(y) <==> l.contains(y) || y == x by {
            if r.contains(y) {
                let j = choose|j: int| 0 <= j < r.len() && r[j] == y;
                assert(j == 0);
            }
            if y == x {
                assert(r[0] == x);
            }
        }
    } else if seq_lt(l[0], x) {
        let t = l.drop_first();
        assert forall|i: int, j: int| 0 <= i < j < t.len() implies seq_lt(#[trigger] t[i], #[trigger] t[j]) by {
            assert(t[i] == l[i + 1] && t[j] == l[j + 1]);
        }
        assert(!t.contains(x)) by {
            if t.contains(x) {
                let j = choose|j: int| 0 <= j < t.len() && t[j] == x;
                assert(l[j + 1] == x);
            }
        }
        lemma_insert_in_order(t, x);
        let rest = insert_in_order(t, x);
        assert(r == seq![l[0]] + rest);
        assert forall|y: Seq<char>| #[trigger] r.contains(y) <==> l.contains(y) || y == x by {
            if r.contains(y) {
                let j = choose|j: int| 0 <= j < r.len() && r[j] == y;
                if j > 0 {
                    assert(rest[j - 1] == y);
                    assert(rest.contains(y));
                    if t.contains(y) {
                        let k = choose|k: int| 0 <= k < t.len() && t[k] == y;
                        assert(l[k + 1] == y);
                    }
                } else {
                    assert(l[0] == y);
                }
            }
            if l.contains(y) {
                let k = choose|k: int| 0 <= k < l.len() && l[k] == y;
                if k == 0 {
                    assert(r[0] == y);
                } else {
                    assert(t[k - 1] == y);
                    assert(t.contains(y));
                    assert(rest.contains(y));
                    let j = choose|j: int| 0 <= j < rest.len() && rest[j] == y;
                    assert(r[j + 1] == y);
                }
            }
            if y == x {
                assert(rest.contains(x));
                let j = choose|j: int| 0 <= j < rest.len() && rest[j] == x;
                assert(r[j + 1] == x);
            }
        }
        assert forall|i: int, j: int| 0 <= i < j < r.len() implies seq_lt(#[trigger] r[i], #[trigger] r[j]) by {
            if i == 0 {
                let y = r[j];
                assert(rest[j - 1] == y);
                assert(rest.contains(y));
                if y != x {
                    assert(t.contains(y));
                    let k = choose|k: int| 0 <= k < t.len() && t[k] == y;
                    assert(l[k + 1] == y);
                }
            } else {
                assert(r[i] == rest[i - 1] && r[j] == rest[j - 1]);
            }
        }
    } else {
        assert(l[0] != x) by {
            assert(l.contains(l[0]));
        }
        lemma_lt_total(l[0], x);
        assert(r == seq![x] + l);
        assert forall|y: Seq<char>| #[trigger] r.contains(y) <==> l.contains(y) || y == x by {
            if r.contains(y) {
                let j = choose|j: int| 0 <= j < r.len() && r[j] == y;
                if j > 0 {
                    assert(l[j - 1] == y);
                }
            }
            if l.contains(y) {
                let k = choose|k: int| 0 <= k < l.len() && l[k] == y;
                assert(r[k + 1] == y);
            }
            if y == x {
                assert(r[0] == x);
            }
        }
        assert forall|i: int, j: int| 0 <= i < j < r.len() implies seq_lt(#[trigger] r[i], #[trigger] r[j]) by {
            if i == 0 {
                assert(r[j] == l[j - 1]);
                if j - 1 > 0 {
                    assert(seq_lt(l[0], l[j - 1]));
                    lemma_lt_transitive(x, l[0], l[j - 1]);
                }
            } else {
                assert(r[i] == l[i - 1] && r[j] == l[j - 1]);
            }
        }
    }
}

/// Every finite set of texts has an increasing listing, so `sorted_listing` lists it.
pub proof fn lemma_listing_exists(set: Set<Seq<char>>)
    requires
        set.finite(),
    ensures
        is_listing(sorted_listing(set), set),
    decreases set.len(),
{
    if set.len() == 0 {
        let e = Seq::<Seq<char>>::empty();
        assert(set =~= Set::<Seq<char>>::empty());
        assert(e.to_set() =~= set);
        assert(is_listing(e, set));
    } else {
        let x = set.choose();
        let rest = set.remove(x);
        lemma_listing_exists(rest);
        let l = sorted_listing(rest);
        assert(!l.contains(x)) by {
            if l.contains(x) {
                assert(l.to_set().contains(x));
            }
        }
        lemma_insert_in_order(l, x);
        let r = insert_in_order(l, x);
        assert forall|y: Seq<char>| r.to_set().contains(y) <==> set.contains(y) by {
            if r.contains(y) && y != x {
                assert(l.to_set().contains(y));
            }
            if set.contains(y) && y != x {
                assert(rest.contains(y));
                assert(l.to_set().contains(y));
            }
        }
        assert(r.to_set() =~= set);
        assert(is_listing(r, set));
    }
}

/// Inserts `x` into an increasing list of distinct strings, unless it is there already.
pub fn insert_sorted(v: &mut Vec<String>, x: String)
    requires
        strictly_sorted(views(old(v)@)),
    ensures
        strictly_sorted(views(final(v)@)),
        views(final(v)@).to_set() == views(old(v)@).to_set().insert(x@),
{
    let ghost old_v = views(v@);
    let n = v.len();
    let mut i: usize = 0;
    while i < n && text_lt(v[i].as_str(), x.as_str())
        invariant
            n == v.len(),
            i <= n,
            views(v@) == old_v,
            forall|k: int| 0 <= k < i ==> seq_lt(#[trigger] views(v@)[k], x@),
        decreases n - i,
    {
        i = i + 1;
    }
    if i < n && text_eq(v[i].as_str(), x.as_str()) {
        assert(views(v@)[i as int] == x@);
        assert(old_v.to_set().insert(x@) =~= old_v.to_set());
        return;
    }
    proof {
        if i < n {
            assert(!seq_lt(old_v[i as int], x@));
            lemma_lt_total(old_v[i as int], x@);
            assert(seq_lt(x@, old_v[i as int]));
        }
    }
    v.insert(i, x);
    proof {
        let nv = views(v@);
        assert(nv =~= old_v.insert(i as int, x@));
        assert forall|a: int, b: int| 0 <= a < b < nv.len() implies seq_lt(
            #[trigger] nv[a],
            #[trigger] nv[b],
        ) by {
            if b < i {
                assert(nv[a] == old_v[a] && nv[b] == old_v[b]);
            } else if b == i {
                assert(nv[a] == old_v[a]);
            } else if a == i {
                if b > i + 1 {
                    assert(seq_lt(old_v[i as int], old_v[b - 1]));
                    lemma_lt_transitive(x@, old_v[i as int], old_v[b - 1]);
                }
            } else if a < i {
                assert(seq_lt(old_v[a], x@));
                assert(seq_lt(x@, old_v[b - 1])) by {
                    if b - 1 > i {
                        assert(seq_lt(old_v[i as int], old_v[b - 1]));
                        lemma_lt_transitive(x@, old_v[i as int], old_v[b - 1]);
                    }
                }
                lemma_lt_transitive(old_v[a], x@, old_v[b - 1]);
            } else {
                assert(nv[a] == old_v[a - 1] && nv[b] == old_v[b - 1]);
            }
        }
        assert forall|y: Seq<char>| #[trigger] nv.to_set().contains(y) <==> old_v.to_set().insert(
            x@,
        ).contains(y) by {
            if nv.to_set().contains(y) {
                let k = choose|k: int| 0 <= k < nv.len() && nv[k] == y;
                if k < i {
                    assert(old_v[k] == y);
                } else if k > i {
                    assert(old_v[k - 1] == y);
                }
            }
            if old_v.contains(y) {
                let k = choose|k: int| 0 <= k < old_v.len() && old_v[k] == y;
                if k < i {
                    assert(nv[k] == y);
                } else {
                    assert(nv[k + 1] == y);
                }
            }
            if y == x@ {
                assert(nv[i as int] == y);
            }
        }
        assert(nv.to_set() =~= old_v.to_set().insert(x@));
    }
}

/// Whether `x` is one of the strings in `v`.
pub fn contains_text(v: &Vec<String>, x: &str) -> (r: bool)
    ensures
        r == views(v@).contains(x@),
{
    let n = v.len();
    let mut i: usize = 0;
    while i < n
        invariant
            n == v.len(),
            i <= n,
            forall|k: int| 0 <= k < i ==> views(v@)[k] != x@,
        decreases n - i,
    {
        if text_eq(v[i].as_str(), x) {
            assert(views(v@)[i as int] == x@);
            return true;
        }
        i = i + 1;
    }
    false
}

/// The strings of `items` that are not in `excluded`, each once, in increasing order.
pub fn sorted_without(items: &Vec<String>, excluded: &Vec<String>) -> (r: Vec<String>)
    ensures
        is_listing(views(r@), views(items@).to_set().difference(views(excluded@).to_set())),
{
    let ghost want = views(items@).to_set().difference(views(excluded@).to_set());
    let mut out: Vec<String> = Vec::new();
    let n = items.len();
    let mut i: usize = 0;
    assert(views(out@).to_set() =~= Set::<Seq<char>>::empty());
    while i < n
        invariant
            n == items.len(),
            i <= n,
            strictly_sorted(views(out@)),
            views(out@).to_set() == views(items@).take(i as int).to_set().difference(
                views(excluded@).to_set(),
            ),
        decreases n - i,
    {
        proof {
            let t0 = views(items@).take(i as int);
            let t1 = views(items@).take(i + 1);
            let x = items@[i as int]@;
            assert forall|y: Seq<char>| #[trigger] t1.contains(y) <==> t0.contains(y) || y == x by {
                if t1.contains(y) {
                    let k = choose|k: int| 0 <= k < t1.len() && #[trigger] t1[k] == y;
                    if k < i {
                        assert(t0[k] == y);
                    }
                }
                if t0.contains(y) {
                    let k = choose|k: int| 0 <= k < t0.len() && #[trigger] t0[k] == y;
                    assert(t1[k] == y);
                }
                if y == x {
                    assert(t1[i as int] == y);
                }
            }
            assert(t1.to_set() =~= t0.to_set().insert(x));
        }
        if !contains_text(excluded, items[i].as_str()) {
            insert_sorted(&mut out, items[i].clone());
        }
        assert(views(out@).to_set() =~= views(items@).take(i + 1).to_set().difference(
            views(excluded@).to_set(),
        ));
        i = i + 1;
    }
    assert(views(items@).take(n as int) =~= views(items@));
    out
}

/// A copy of a list of strings.
pub fn clone_strings(v: &Vec<String>) -> (r: Vec<String>)
    ensures
        views(r@) == views(v@),
{
    let mut out: Vec<String> = Vec::new();
    let n = v.len();
    let mut i: usize = 0;
    while i < n
        invariant
            n == v.len(),
            i <= n,
            views(out@) == views(v@).take(i as int),
        decreases n - i,
    {
        let s = v[i].clone();
        let ghost before = out@;
        out.push(s);
        assert(views(out@) =~= views(before).push(s@));
        i = i + 1;
        assert(views(out@) =~= views(v@).take(i as int));
    }
    assert(views(v@).take(n as int) =~= views(v@));
    out
}

/// `parts` joined with `sep` between neighbours (what `[String]::join` gives).
pub open spec fn join(parts: Seq<Seq<char>>, sep: Seq<char>) -> Seq<char>
    decreases parts.len(),
{
    if parts.len() == 0 {
        seq![]
    } else if parts.len() == 1 {
        parts[0]
    } else {
        join(parts.drop_last(), sep) + sep + parts.last()
    }
}

/// Joins strings with a separator.
pub fn join_strings(parts: &Vec<String>, sep: &str) -> (r: String)
    ensures
        r@ == join(views(parts@), sep@),
{
    let mut out = String::new();
    let n = parts.len();
    let mut i: usize = 0;
    while i < n
        invariant
            n == parts.len(),
            i <= n,
            out@ == join(views(parts@).take(i as int), sep@),
        decreases n - i,
    {
        assert(views(parts@).take(i + 1).drop_last() =~= views(parts@).take(i as int));
        if i != 0 {
            out.append(sep);
        }
        out.append(parts[i].as_str());
        i = i + 1;
        assert(views(parts@).take(i as int).last() == parts@[i - 1]@);
        if i == 1 {
            assert(out@ =~= join(views(parts@).take(i as int), sep@));
        }
    }
    assert(views(parts@).take(n as int) =~= views(parts@));
    out
}

} // verus!
