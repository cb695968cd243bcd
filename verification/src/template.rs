//! Command templates: `{name}` placeholders, `{{` and `}}` escapes, and `key=value` assignments.
use vstd::prelude::*;
use crate::strmap::{StrMap, distinct, text_values};
use crate::text::{
    first_index_of, join, lemma_first_index_of, chars_of, is_listing, is_name_char, is_ws, lemma_listing_is_sorted_listing, name_char,
    push_char, sorted_listing, split_once_at, split_once_char, strictly_sorted, views,
    whitespace, insert_sorted,
};

verus! {

/// A placeholder name: non-empty, made of ASCII letters and digits, `_` and `-`.
pub open spec fn is_valid_name_spec(s: Seq<char>) -> bool {
    s.len() > 0 && forall|i: int| 0 <= i < s.len() ==> is_name_char(#[trigger] s[i])
}

/// Checks `is_valid_name_spec`.
pub fn is_valid_name(name: &str) -> (r: bool)
    ensures
        r == is_valid_name_spec(name@),
{
    let n = name.unicode_len();
    if n == 0 {
        return false;
    }
    let mut i: usize = 0;
    while i < n
        invariant
            n == name@.len(),
            i <= n,
            forall|k: int| 0 <= k < i ==> is_name_char(#[trigger] name@[k]),
        decreases n - i,
    {
        if !name_char(name.get_char(i)) {
            return false;
        }
        i = i + 1;
    }
    true
}

/// The first position at or after `k` that holds `}`, or the length of `s` if there is none.
pub open spec fn close_index(s: Seq<char>, k: int) -> int
    decreases s.len() - k,
{
    if k >= s.len() {
        s.len() as int
    } else if s[k] == '}' {
        k
    } else {
        close_index(s, k + 1)
    }
}

pub proof fn lemma_close_index(s: Seq<char>, k: int)
    requires
        0 <= k <= s.len(),
    ensures
        k <= close_index(s, k) <= s.len(),
        close_index(s, k) < s.len() ==> s[close_index(s, k)] == '}',
        forall|t: int| k <= t < close_index(s, k) ==> s[t] != '}',
    decreases s.len() - k,
{
    if k < s.len() && s[k] != '}' {
        lemma_close_index(s, k + 1);
    }
}

/// The names of the placeholders found by scanning `s` from position `i`: `{{` is skipped,
/// `{name}` with a valid name contributes `name`, and `{text}` with an invalid name is skipped
/// as a whole.
pub open spec fn names_from(s: Seq<char>, i: int) -> Set<Seq<char>>
    decreases s.len() - i,
{
    if i < 0 || i >= s.len() {
        Set::empty()
    } else if s[i] == '{' && i + 1 < s.len() && s[i + 1] == '{' {
        names_from(s, i + 2)
    } else if s[i] == '{' && close_index(s, i + 1) < s.len() && close_index(s, i + 1) > i + 1 {
        let j = close_index(s, i + 1);
        let name = s.subrange(i + 1, j);
        if is_valid_name_spec(name) {
            names_from(s, j + 1).insert(name)
        } else {
            names_from(s, j + 1)
        }
    } else {
        names_from(s, i + 1)
    }
}

/// Every placeholder name found from position `i` on is a valid name.
pub proof fn lemma_names_from_valid(s: Seq<char>, i: int)
    ensures
        forall|n: Seq<char>| #[trigger] names_from(s, i).contains(n) ==> is_valid_name_spec(n),
    decreases s.len() - i,
{
    if 0 <= i < s.len() {
        if s[i] == '{' && i + 1 < s.len() && s[i + 1] == '{' {
            lemma_names_from_valid(s, i + 2);
            assert(names_from(s, i) == names_from(s, i + 2));
        } else if s[i] == '{' && close_index(s, i + 1) < s.len() && close_index(s, i + 1) > i + 1 {
            let j = close_index(s, i + 1);
            lemma_names_from_valid(s, j + 1);
            let name = s.subrange(i + 1, j);
            assert forall|n: Seq<char>| #[trigger] names_from(s, i).contains(n) implies is_valid_name_spec(n) by {
                if !(n == name && is_valid_name_spec(name)) {
                    assert(names_from(s, j + 1).contains(n));
                }
            }
        } else {
            lemma_names_from_valid(s, i + 1);
            assert(names_from(s, i) == names_from(s, i + 1));
        }
    } else {
        assert(names_from(s, i) =~= Set::<Seq<char>>::empty());
    }
}

/// A command has finitely many placeholder names.
pub proof fn lemma_names_from_finite(s: Seq<char>, i: int)
    ensures
        names_from(s, i).finite(),
    decreases s.len() - i,
{
    if 0 <= i < s.len() {
        if s[i] == '{' && i + 1 < s.len() && s[i + 1] == '{' {
            lemma_names_from_finite(s, i + 2);
        } else if s[i] == '{' && close_index(s, i + 1) < s.len() && close_index(s, i + 1) > i + 1 {
            lemma_names_from_finite(s, close_index(s, i + 1) + 1);
        } else {
            lemma_names_from_finite(s, i + 1);
        }
    }
}

/// Every placeholder of a command has a valid name: non-empty, of ASCII letters and digits,
/// `_` and `-`.
pub proof fn lemma_placeholder_names_valid(s: Seq<char>)
    ensures
        forall|n: Seq<char>| #[trigger] placeholder_names(s).contains(n) ==> is_valid_name_spec(n),
{
    lemma_names_from_valid(s, 0);
}

/// The set of placeholder names of a command.
pub open spec fn placeholder_names(s: Seq<char>) -> Set<Seq<char>> {
    names_from(s, 0)
}

/// The placeholder names of a command, each once, in increasing order.
pub open spec fn placeholder_list(s: Seq<char>) -> Seq<Seq<char>> {
    sorted_listing(placeholder_names(s))
}

/// The text produced by rendering `s` from position `i` with `values`: `{{` gives `{`, `}}`
/// gives `}`, `{name}` gives the value of `name` where there is one, and every other
/// character stands for itself.
pub open spec fn render_from(s: Seq<char>, i: int, values: Map<Seq<char>, Seq<char>>) -> Seq<char>
    decreases s.len() - i,
{
    if i < 0 || i >= s.len() {
        seq![]
    } else if s[i] == '{' && i + 1 < s.len() && s[i + 1] == '{' {
        seq!['{'] + render_from(s, i + 2, values)
    } else if s[i] == '{' && close_index(s, i + 1) < s.len() && close_index(s, i + 1) > i + 1
        && values.contains_key(s.subrange(i + 1, close_index(s, i + 1))) {
        values[s.subrange(i + 1, close_index(s, i + 1))] + render_from(
            s,
            close_index(s, i + 1) + 1,
            values,
        )
    } else if s[i] == '}' && i + 1 < s.len() && s[i + 1] == '}' {
        seq!['}'] + render_from(s, i + 2, values)
    } else {
        seq![s[i]] + render_from(s, i + 1, values)
    }
}

/// The rendering of a whole command.
pub open spec fn rendered(s: Seq<char>, values: Map<Seq<char>, Seq<char>>) -> Seq<char> {
    render_from(s, 0, values)
}

proof fn lemma_close_shift(p: Seq<char>, q: Seq<char>, k: int)
    requires
        0 <= k <= q.len(),
    ensures
        close_index(p + q, p.len() + k) == p.len() + close_index(q, k),
    decreases q.len() - k,
{
    if k < q.len() {
        assert((p + q)[p.len() + k] == q[k]);
        if q[k] != '}' {
            lemma_close_shift(p, q, k + 1);
        }
    }
}

proof fn lemma_render_shift(p: Seq<char>, q: Seq<char>, j: int, m: Map<Seq<char>, Seq<char>>)
    requires
        0 <= j <= q.len(),
    ensures
        render_from(p + q, p.len() + j, m) == render_from(q, j, m),
    decreases q.len() - j,
{
    let s = p + q;
    let i = p.len() + j;
    if j < q.len() {
        assert(s[i] == q[j]);
        if j + 1 < q.len() {
            assert(s[i + 1] == q[j + 1]);
        }
        if j + 1 <= q.len() {
            lemma_close_shift(p, q, j + 1);
            lemma_close_index(q, j + 1);
        }
        let c = close_index(q, j + 1);
        if c < q.len() && c > j + 1 {
            assert(s.subrange(i + 1, p.len() + c) =~= q.subrange(j + 1, c));
            lemma_render_shift(p, q, c + 1, m);
        }
        if j + 2 <= q.len() {
            lemma_render_shift(p, q, j + 2, m);
        }
        lemma_render_shift(p, q, j + 1, m);
    }
}

proof fn lemma_names_shift(p: Seq<char>, q: Seq<char>, j: int)
    requires
        0 <= j <= q.len(),
    ensures
        names_from(p + q, p.len() + j) == names_from(q, j),
    decreases q.len() - j,
{
    let s = p + q;
    let i = p.len() + j;
    if j < q.len() {
        assert(s[i] == q[j]);
        if j + 1 < q.len() {
            assert(s[i + 1] == q[j + 1]);
        }
        lemma_close_shift(p, q, j + 1);
        lemma_close_index(q, j + 1);
        let c = close_index(q, j + 1);
        if c < q.len() && c > j + 1 {
            assert(s.subrange(i + 1, p.len() + c) =~= q.subrange(j + 1, c));
            lemma_names_shift(p, q, c + 1);
        }
        if j + 2 <= q.len() {
            lemma_names_shift(p, q, j + 2);
        }
        lemma_names_shift(p, q, j + 1);
    }
}

/// `t` with every brace doubled, so that it renders as itself.
pub open spec fn escaped(t: Seq<char>) -> Seq<char>
    decreases t.len(),
{
    if t.len() == 0 {
        seq![]
    } else {
        let c = t[0];
        (if c == '{' {
            seq!['{', '{']
        } else if c == '}' {
            seq!['}', '}']
        } else {
            seq![c]
        }) + escaped(t.drop_first())
    }
}

/// Doubling the braces of a text makes a command that renders to exactly that text, whatever
/// the values, and that has no placeholders.
pub proof fn lemma_escaped_renders_literally(t: Seq<char>, m: Map<Seq<char>, Seq<char>>)
    ensures
        rendered(escaped(t), m) == t,
        placeholder_names(escaped(t)) == Set::<Seq<char>>::empty(),
    decreases t.len(),
{
    if t.len() == 0 {
        assert(names_from(escaped(t), 0) =~= Set::<Seq<char>>::empty());
    } else {
        let c = t[0];
        let rest = escaped(t.drop_first());
        lemma_escaped_renders_literally(t.drop_first(), m);
        let e = escaped(t);
        if c == '{' {
            let p = seq!['{', '{'];
            assert(e == p + rest);
            lemma_render_shift(p, rest, 0, m);
            lemma_names_shift(p, rest, 0);
            assert(render_from(e, 0, m) == seq!['{'] + render_from(e, 2, m));
        } else if c == '}' {
            let p = seq!['}', '}'];
            assert(e == p + rest);
            lemma_render_shift(p, rest, 0, m);
            lemma_names_shift(p, rest, 0);
            assert(render_from(e, 0, m) == seq!['}'] + render_from(e, 2, m));
            assert(names_from(e, 0) == names_from(e, 1));
            assert(names_from(e, 1) == names_from(e, 2));
        } else {
            let p = seq![c];
            assert(e == p + rest);
            lemma_render_shift(p, rest, 0, m);
            lemma_names_shift(p, rest, 0);
            assert(render_from(e, 0, m) == seq![c] + render_from(e, 1, m));
        }
        assert(t =~= seq![c] + t.drop_first());
    }
}

proof fn lemma_escaped_prefix(a: Seq<char>, q: Seq<char>, m: Map<Seq<char>, Seq<char>>)
    ensures
        render_from(escaped(a) + q, 0, m) == a + render_from(q, 0, m),
        names_from(escaped(a) + q, 0) == names_from(q, 0),
    decreases a.len(),
{
    if a.len() == 0 {
        assert(escaped(a) + q =~= q);
    } else {
        let c = a[0];
        lemma_escaped_prefix(a.drop_first(), q, m);
        let tail = escaped(a.drop_first()) + q;
        let tok = if c == '{' {
            seq!['{', '{']
        } else if c == '}' {
            seq!['}', '}']
        } else {
            seq![c]
        };
        let s = escaped(a) + q;
        assert(s =~= tok + tail);
        lemma_render_shift(tok, tail, 0, m);
        lemma_names_shift(tok, tail, 0);
        if c == '{' {
            assert(render_from(s, 0, m) == seq!['{'] + render_from(s, 2, m));
        } else if c == '}' {
            assert(render_from(s, 0, m) == seq!['}'] + render_from(s, 2, m));
            assert(names_from(s, 0) == names_from(s, 1));
            assert(names_from(s, 1) == names_from(s, 2));
        } else {
            assert(render_from(s, 0, m) == seq![c] + render_from(s, 1, m));
        }
        assert(a =~= seq![c] + a.drop_first());
    }
}

proof fn lemma_close_after_name(q: Seq<char>, n: Seq<char>, k: int)
    requires
        forall|i: int| 0 <= i < n.len() ==> n[i] != '}',
        0 <= k <= n.len(),
        q.len() > n.len() as int + 1,
        q.subrange(1, n.len() as int + 1) == n,
        q[n.len() as int + 1] == '}',
    ensures
        close_index(q, k + 1) == n.len() as int + 1,
    decreases n.len() - k,
{
    if k < n.len() {
        assert(q[k + 1] == n[k]);
        lemma_close_after_name(q, n, k + 1);
    }
}

/// A placeholder between two literal texts (with their braces doubled) renders to its value
/// between those texts, and it is the only placeholder of the command.
pub proof fn lemma_placeholder_substituted(
    a: Seq<char>,
    n: Seq<char>,
    b: Seq<char>,
    m: Map<Seq<char>, Seq<char>>,
)
    requires
        is_valid_name_spec(n),
        m.contains_key(n),
    ensures
        rendered(escaped(a) + seq!['{'] + n + seq!['}'] + escaped(b), m) == a + m[n] + b,
        placeholder_names(escaped(a) + seq!['{'] + n + seq!['}'] + escaped(b)) == set![n],
{
    let tok = seq!['{'] + n + seq!['}'];
    let q = tok + escaped(b);
    assert(escaped(a) + seq!['{'] + n + seq!['}'] + escaped(b) =~= escaped(a) + q);
    lemma_escaped_prefix(a, q, m);
    assert(q[0] == '{');
    assert(q[1] == n[0]);
    assert(is_name_char(n[0]));
    assert(q.subrange(1, n.len() as int + 1) =~= n);
    assert(q[n.len() as int + 1] == '}');
    assert forall|i: int| 0 <= i < n.len() implies n[i] != '}' by {
        assert(is_name_char(n[i]));
    }
    lemma_close_after_name(q, n, 0);
    lemma_render_shift(tok, escaped(b), 0, m);
    lemma_names_shift(tok, escaped(b), 0);
    lemma_escaped_renders_literally(b, m);
    assert(render_from(q, 0, m) == m[n] + render_from(q, n.len() as int + 2, m));
    assert(render_from(q, 0, m) == m[n] + b);
    assert(names_from(q, 0) == names_from(q, n.len() as int + 2).insert(n));
    assert(names_from(q, 0) =~= set![n]);
}

/// A command without braces renders to itself, whatever the values.
pub proof fn lemma_brace_free_renders_literally(t: Seq<char>, m: Map<Seq<char>, Seq<char>>)
    requires
        forall|i: int| 0 <= i < t.len() ==> t[i] != '{' && t[i] != '}',
    ensures
        rendered(t, m) == t,
        placeholder_names(t) == Set::<Seq<char>>::empty(),
{
    lemma_escaped_brace_free(t);
    lemma_escaped_renders_literally(t, m);
}

proof fn lemma_escaped_brace_free(t: Seq<char>)
    requires
        forall|i: int| 0 <= i < t.len() ==> t[i] != '{' && t[i] != '}',
    ensures
        escaped(t) == t,
    decreases t.len(),
{
    if t.len() > 0 {
        lemma_escaped_brace_free(t.drop_first());
        assert(t =~= seq![t[0]] + t.drop_first());
    }
}

/// No character of `t` is a brace.
pub open spec fn brace_free(t: Seq<char>) -> bool {
    forall|i: int| 0 <= i < t.len() ==> t[i] != '{' && t[i] != '}'
}

proof fn lemma_escaped_concat(x: Seq<char>, y: Seq<char>)
    ensures
        escaped(x + y) == escaped(x) + escaped(y),
    decreases x.len(),
{
    if x.len() == 0 {
        assert(x + y =~= y);
        assert(escaped(x) + escaped(y) =~= escaped(y));
    } else {
        assert((x + y).drop_first() =~= x.drop_first() + y);
        assert((x + y)[0] == x[0]);
        lemma_escaped_concat(x.drop_first(), y);
        let c = x[0];
        let tok = if c == '{' {
            seq!['{', '{']
        } else if c == '}' {
            seq!['}', '}']
        } else {
            seq![c]
        };
        assert(escaped(x + y) == tok + escaped(x.drop_first() + y));
        assert(escaped(x) == tok + escaped(x.drop_first()));
        assert(escaped(x + y) =~= escaped(x) + escaped(y));
    }
}

/// A command made of two brace-free texts around `{n}`, with `n` a valid name, has `n` as its
/// only placeholder; with the braces doubled, `{{n}}` is no placeholder and renders as `{n}`.
pub proof fn lemma_single_placeholder(
    a: Seq<char>,
    n: Seq<char>,
    b: Seq<char>,
    m: Map<Seq<char>, Seq<char>>,
)
    requires
        is_valid_name_spec(n),
        brace_free(a),
        brace_free(b),
    ensures
        placeholder_list(a + seq!['{'] + n + seq!['}'] + b) == seq![n],
        placeholder_names(a + seq!['{', '{'] + n + seq!['}', '}'] + b) == Set::<Seq<char>>::empty(),
        rendered(a + seq!['{', '{'] + n + seq!['}', '}'] + b, m) == a + seq!['{'] + n + seq!['}']
            + b,
{
    lemma_escaped_brace_free(a);
    lemma_escaped_brace_free(b);
    assert forall|i: int| 0 <= i < n.len() implies n[i] != '{' && n[i] != '}' by {
        assert(is_name_char(n[i]));
    }
    lemma_escaped_brace_free(n);
    let t = a + seq!['{'] + n + seq!['}'] + b;
    lemma_placeholder_substituted(a, n, b, map![n => n]);
    assert(placeholder_names(t) == set![n]);
    let l = seq![n];
    assert(l[0] == n);
    assert(l.contains(n));
    assert forall|x: Seq<char>| l.to_set().contains(x) <==> set![n].contains(x) by {
        if l.contains(x) {
            let j = choose|j: int| 0 <= j < l.len() && l[j] == x;
            assert(j == 0);
        }
    }
    assert(l.to_set() =~= set![n]);
    assert(strictly_sorted(l));
    lemma_listing_is_sorted_listing(l, set![n]);
    let r3 = seq!['}'] + b;
    let r2 = n + r3;
    let r1 = seq!['{'] + r2;
    lemma_escaped_concat(a, r1);
    lemma_escaped_concat(seq!['{'], r2);
    lemma_escaped_concat(n, r3);
    lemma_escaped_concat(seq!['}'], b);
    assert(escaped(Seq::<char>::empty()) =~= Seq::<char>::empty());
    assert(escaped(seq!['{']) =~= seq!['{', '{']) by {
        assert(seq!['{'].drop_first() =~= Seq::<char>::empty());
        assert(seq!['{'][0] == '{');
    }
    assert(escaped(seq!['}']) =~= seq!['}', '}']) by {
        assert(seq!['}'].drop_first() =~= Seq::<char>::empty());
        assert(seq!['}'][0] == '}');
    }
    assert(t =~= a + r1);
    assert(escaped(t) =~= a + seq!['{', '{'] + n + seq!['}', '}'] + b);
    lemma_escaped_renders_literally(t, m);
}

/// A placeholder `{n}` between brace-free texts, with `n` non-empty and free of braces (valid
/// or not), renders to its value where `m` has one, and stays as it is otherwise.
pub proof fn lemma_placeholder_rendered(
    a: Seq<char>,
    n: Seq<char>,
    b: Seq<char>,
    m: Map<Seq<char>, Seq<char>>,
)
    requires
        n.len() > 0,
        brace_free(n),
        brace_free(a),
        brace_free(b),
    ensures
        rendered(a + seq!['{'] + n + seq!['}'] + b, m) == if m.contains_key(n) {
            a + m[n] + b
        } else {
            a + seq!['{'] + n + seq!['}'] + b
        },
{
    let tok = seq!['{'] + n + seq!['}'];
    let q = tok + b;
    assert(a + seq!['{'] + n + seq!['}'] + b =~= a + q);
    lemma_escaped_brace_free(a);
    lemma_escaped_prefix(a, q, m);
    lemma_brace_free_renders_literally(b, m);
    assert(q[0] == '{');
    assert(q[1] == n[0]);
    assert(q.subrange(1, n.len() as int + 1) =~= n);
    assert(q[n.len() as int + 1] == '}');
    lemma_close_after_name(q, n, 0);
    if m.contains_key(n) {
        lemma_render_shift(tok, b, 0, m);
        assert(render_from(q, 0, m) == m[n] + render_from(q, n.len() as int + 2, m));
    } else {
        let r = n + seq!['}'] + b;
        assert(q =~= seq!['{'] + r);
        assert(render_from(q, 0, m) == seq!['{'] + render_from(q, 1, m));
        lemma_render_shift(seq!['{'], r, 0, m);
        let u = seq!['}'] + b;
        assert(r =~= n + u);
        lemma_escaped_brace_free(n);
        lemma_escaped_prefix(n, u, m);
        if b.len() > 0 {
            assert(u[1] == b[0]);
        }
        assert(render_from(u, 0, m) == seq!['}'] + render_from(u, 1, m));
        lemma_render_shift(seq!['}'], b, 0, m);
        assert(render_from(u, 0, m) =~= u);
        assert(render_from(q, 0, m) =~= q);
    }
}

/// An empty brace pair `{}` is no placeholder: after a brace-free text it renders as the two
/// characters `{}`, whatever the values, and the rest renders as it would alone (unless it
/// starts with `}`, which would make `}}` an escape).
pub proof fn lemma_empty_braces_kept(a: Seq<char>, b: Seq<char>, m: Map<Seq<char>, Seq<char>>)
    requires
        brace_free(a),
        b.len() == 0 || b[0] != '}',
    ensures
        rendered(a + seq!['{', '}'] + b, m) == a + seq!['{', '}'] + rendered(b, m),
        placeholder_names(a + seq!['{', '}'] + b) == placeholder_names(b),
{
    let tok = seq!['{', '}'];
    let q = tok + b;
    assert(a + seq!['{', '}'] + b =~= a + q);
    lemma_escaped_brace_free(a);
    lemma_escaped_prefix(a, q, m);
    assert(q[0] == '{' && q[1] == '}');
    if b.len() > 0 {
        assert(q[2] == b[0]);
    }
    assert(close_index(q, 1) == 1);
    lemma_render_shift(tok, b, 0, m);
    lemma_names_shift(tok, b, 0);
    assert(render_from(q, 1, m) == seq!['}'] + render_from(q, 2, m));
    assert(render_from(q, 0, m) == seq!['{'] + render_from(q, 1, m));
    assert(names_from(q, 0) == names_from(q, 1));
    assert(names_from(q, 1) == names_from(q, 2));
    assert(a + q =~= a + tok + b);
    assert(seq!['{'] + (seq!['}'] + render_from(b, 0, m)) =~= tok + render_from(b, 0, m));
}

/// `t` has two `c` next to each other somewhere.
pub open spec fn has_pair(t: Seq<char>, c: char) -> bool {
    exists|j: int| 0 <= j && j + 1 < t.len() && #[trigger] t[j] == c && t[j + 1] == c
}

proof fn lemma_render_plain_from(t: Seq<char>, i: int)
    requires
        0 <= i <= t.len(),
        !has_pair(t, '{'),
        !has_pair(t, '}'),
    ensures
        render_from(t, i, Map::<Seq<char>, Seq<char>>::empty()) == t.skip(i),
    decreases t.len() - i,
{
    if i < t.len() {
        if i + 1 < t.len() && t[i] == '{' && t[i + 1] == '{' {
            assert(has_pair(t, '{'));
        }
        if i + 1 < t.len() && t[i] == '}' && t[i + 1] == '}' {
            assert(has_pair(t, '}'));
        }
        lemma_render_plain_from(t, i + 1);
        assert(t.skip(i) =~= seq![t[i]] + t.skip(i + 1));
    } else {
        assert(t.skip(i) =~= Seq::<char>::empty());
    }
}

/// With no values, a command without `{{` and without `}}` renders to itself, lone braces
/// included.
pub proof fn lemma_plain_command_renders_itself(t: Seq<char>)
    requires
        !has_pair(t, '{'),
        !has_pair(t, '}'),
    ensures
        rendered(t, Map::<Seq<char>, Seq<char>>::empty()) == t,
{
    lemma_render_plain_from(t, 0);
    assert(t.skip(0) =~= t);
}

/// The whitespace-separated words of `s` (what `str::split_whitespace` yields).
pub open spec fn words(s: Seq<char>) -> Seq<Seq<char>>
    decreases s.len(),
{
    if s.len() == 0 {
        seq![]
    } else {
        let prev = words(s.drop_last());
        let c = s.last();
        if is_ws(c) {
            prev
        } else if s.len() >= 2 && !is_ws(s[s.len() - 2]) {
            prev.drop_last().push(prev.last().push(c))
        } else {
            prev.push(seq![c])
        }
    }
}

pub proof fn lemma_words_nonempty(s: Seq<char>)
    requires
        s.len() > 0,
        !is_ws(s.last()),
    ensures
        words(s).len() > 0,
    decreases s.len(),
{
    if s.len() >= 2 && !is_ws(s[s.len() - 2]) {
        lemma_words_nonempty(s.drop_last());
    }
}

/// The assignments that a list of `key=value` words makes: a word counts where the text before
/// its first `=` is a valid name and the text after it is not empty; a later word overrides an
/// earlier one with the same key.
pub open spec fn assignment_map(tokens: Seq<Seq<char>>) -> Map<Seq<char>, Seq<char>>
    decreases tokens.len(),
{
    if tokens.len() == 0 {
        Map::empty()
    } else {
        let m = assignment_map(tokens.drop_last());
        match split_once_at(tokens.last(), '=') {
            Some(kv) => if is_valid_name_spec(kv.0) && kv.1.len() > 0 {
                m.insert(kv.0, kv.1)
            } else {
                m
            },
            None => m,
        }
    }
}

/// The assignments written in `s`, such as `branch=main remote=origin`.
pub open spec fn assignment_values(s: Seq<char>) -> Map<Seq<char>, Seq<char>> {
    assignment_map(words(s))
}

/// A word of one assignment: `k=v`.
pub open spec fn assignment_word(k: Seq<char>, v: Seq<char>) -> Seq<char> {
    k + seq!['='] + v
}

/// The words `ks[i]=vs[i]`, in order.
pub open spec fn assignment_words(ks: Seq<Seq<char>>, vs: Seq<Seq<char>>) -> Seq<Seq<char>> {
    Seq::new(ks.len(), |i: int| assignment_word(ks[i], vs[i]))
}

/// The assignments `ks[i]=vs[i]` written one after the other, separated by single spaces.
pub open spec fn assignment_text(ks: Seq<Seq<char>>, vs: Seq<Seq<char>>) -> Seq<char> {
    join(assignment_words(ks, vs), seq![' '])
}

proof fn lemma_words_append(p: Seq<char>, t: Seq<char>)
    requires
        p.len() == 0 || is_ws(p.last()),
        t.len() > 0,
        forall|j: int| 0 <= j < t.len() ==> !is_ws(#[trigger] t[j]),
    ensures
        words(p + t) == words(p).push(t),
    decreases t.len(),
{
    let s = p + t;
    let c = t.last();
    assert(s.last() == c);
    if t.len() == 1 {
        assert(s.drop_last() =~= p);
        if s.len() >= 2 {
            assert(s[s.len() - 2] == p.last());
        }
        assert(t =~= seq![c]);
    } else {
        let t1 = t.drop_last();
        lemma_words_append(p, t1);
        assert(s.drop_last() =~= p + t1);
        assert(s[s.len() - 2] == t1.last());
        assert(!is_ws(t[t.len() - 2]));
        let prev = words(p + t1);
        assert(prev.drop_last() =~= words(p));
        assert(prev.last() == t1);
        assert(t1.push(c) =~= t);
        assert(words(s) == prev.drop_last().push(prev.last().push(c)));
    }
}

proof fn lemma_words_join(tokens: Seq<Seq<char>>)
    requires
        forall|i: int|
            0 <= i < tokens.len() ==> (#[trigger] tokens[i]).len() > 0 && forall|j: int|
                0 <= j < tokens[i].len() ==> !is_ws(#[trigger] tokens[i][j]),
    ensures
        words(join(tokens, seq![' '])) == tokens,
    decreases tokens.len(),
{
    if tokens.len() == 0 {
        assert(words(join(tokens, seq![' '])) =~= tokens);
    } else if tokens.len() == 1 {
        let t = tokens[0];
        lemma_words_append(Seq::<char>::empty(), t);
        assert(Seq::<char>::empty() + t =~= t);
        assert(words(Seq::<char>::empty()) =~= Seq::<Seq<char>>::empty());
        assert(tokens =~= seq![t]);
    } else {
        let init = tokens.drop_last();
        let t = tokens.last();
        lemma_words_join(init);
        let j = join(init, seq![' ']);
        let p = j + seq![' '];
        assert(p.last() == ' ');
        assert(p.drop_last() =~= j);
        lemma_words_append(p, t);
        assert(join(tokens, seq![' ']) == j + seq![' '] + t);
        assert(words(p) == words(j));
        assert(tokens =~= init.push(t));
    }
}

proof fn lemma_split_word(k: Seq<char>, v: Seq<char>)
    requires
        is_valid_name_spec(k),
    ensures
        split_once_at(assignment_word(k, v), '=') == Some((k, v)),
{
    let w = assignment_word(k, v);
    let n = k.len() as int;
    assert(w[n] == '=');
    lemma_first_index_of(w, '=');
    let i = first_index_of(w, '=')->Some_0;
    if i < n {
        assert(w[i] == k[i]);
        assert(is_name_char(k[i]));
    }
    assert(i == n);
    assert(w.take(n) =~= k);
    assert(w.skip(n + 1) =~= v);
}

proof fn lemma_take_contains_step(ks: Seq<Seq<char>>, n: int, k: Seq<char>)
    requires
        0 < n <= ks.len(),
    ensures
        ks.take(n).contains(k) <==> ks.take(n - 1).contains(k) || k == ks[n - 1],
{
    let t = ks.take(n);
    let u = ks.take(n - 1);
    if t.contains(k) {
        let j = choose|j: int| 0 <= j < t.len() && t[j] == k;
        if j < n - 1 {
            assert(u[j] == k);
        }
    }
    if u.contains(k) {
        let j = choose|j: int| 0 <= j < u.len() && u[j] == k;
        assert(t[j] == k);
    }
    if k == ks[n - 1] {
        assert(t[n - 1] == k);
    }
}

#[verifier::spinoff_prover]
proof fn lemma_assignment_prefix(ks: Seq<Seq<char>>, vs: Seq<Seq<char>>, n: int)
    requires
        ks.len() == vs.len(),
        0 <= n <= ks.len(),
        distinct(ks),
        forall|i: int| 0 <= i < ks.len() ==> is_valid_name_spec(#[trigger] ks[i]),
        forall|i: int| 0 <= i < vs.len() ==> (#[trigger] vs[i]).len() > 0,
    ensures
        forall|k: Seq<char>|
            #[trigger] assignment_map(assignment_words(ks, vs).take(n)).contains_key(k) <==> ks.take(
                n,
            ).contains(k),
        forall|i: int|
            0 <= i < n ==> assignment_map(assignment_words(ks, vs).take(n))[#[trigger] ks[i]]
                == vs[i],
    decreases n,
{
    let ws = assignment_words(ks, vs);
    let mp = assignment_map(ws.take(n));
    if n == 0 {
        assert(ws.take(0) =~= Seq::<Seq<char>>::empty());
        assert forall|k: Seq<char>| #[trigger] mp.contains_key(k) <==> ks.take(n).contains(k) by {
            assert(ks.take(0) =~= Seq::<Seq<char>>::empty());
        }
    } else {
        lemma_assignment_prefix(ks, vs, n - 1);
        let prev = assignment_map(ws.take(n - 1));
        assert(ws.take(n).drop_last() =~= ws.take(n - 1));
        assert(ws.take(n).last() == assignment_word(ks[n - 1], vs[n - 1]));
        lemma_split_word(ks[n - 1], vs[n - 1]);
        assert(mp == prev.insert(ks[n - 1], vs[n - 1]));
        assert forall|k: Seq<char>| #[trigger] mp.contains_key(k) <==> ks.take(n).contains(k) by {
            lemma_take_contains_step(ks, n, k);
        }
        assert forall|i: int| 0 <= i < n implies mp[#[trigger] ks[i]] == vs[i] by {
            if i < n - 1 {
                assert(ks[i] != ks[n - 1]);
            }
        }
    }
}

/// Writing distinct valid names with non-empty values free of whitespace as `k=v` words
/// joined by spaces, then reading the assignments back, gives exactly those assignments.
pub proof fn lemma_assignments_round_trip(ks: Seq<Seq<char>>, vs: Seq<Seq<char>>)
    requires
        ks.len() == vs.len(),
        distinct(ks),
        forall|i: int| 0 <= i < ks.len() ==> is_valid_name_spec(#[trigger] ks[i]),
        forall|i: int|
            0 <= i < vs.len() ==> (#[trigger] vs[i]).len() > 0 && forall|j: int|
                0 <= j < vs[i].len() ==> !is_ws(#[trigger] vs[i][j]),
    ensures
        assignment_values(assignment_text(ks, vs)).dom() == ks.to_set(),
        forall|i: int|
            0 <= i < ks.len() ==> assignment_values(assignment_text(ks, vs))[#[trigger] ks[i]]
                == vs[i],
{
    let ws = assignment_words(ks, vs);
    assert forall|i: int| 0 <= i < ws.len() implies (#[trigger] ws[i]).len() > 0 && forall|j: int|
        0 <= j < ws[i].len() ==> !is_ws(#[trigger] ws[i][j]) by {
        let k = ks[i];
        let v = vs[i];
        assert(ws[i] == k + seq!['='] + v);
        assert forall|j: int| 0 <= j < ws[i].len() implies !is_ws(#[trigger] ws[i][j]) by {
            if j < k.len() {
                assert(ws[i][j] == k[j]);
                assert(is_name_char(k[j]));
            } else if j > k.len() {
                assert(ws[i][j] == v[j - k.len() - 1]);
            }
        }
    }
    lemma_words_join(ws);
    lemma_assignment_prefix(ks, vs, ks.len() as int);
    assert(ws.take(ks.len() as int) =~= ws);
    assert(ks.take(ks.len() as int) =~= ks);
    assert(assignment_values(assignment_text(ks, vs)).dom() =~= ks.to_set());
}

/// The string made of `chars[from..to]`.
fn string_of(chars: &Vec<char>, from: usize, to: usize) -> (r: String)
    requires
        from <= to <= chars.len(),
    ensures
        r@ == chars@.subrange(from as int, to as int),
{
    let mut out = String::new();
    let mut k = from;
    while k < to
        invariant
            from <= k <= to,
            to <= chars.len(),
            out@ == chars@.subrange(from as int, k as int),
        decreases to - k,
    {
        push_char(&mut out, chars[k]);
        k = k + 1;
        assert(out@ =~= chars@.subrange(from as int, k as int));
    }
    out
}

/// The placeholder names of `command`, each once, in increasing order.
pub fn placeholders(command: &str) -> (r: Vec<String>)
    ensures
        views(r@) == placeholder_list(command@),
        is_listing(views(r@), placeholder_names(command@)),
{
    let chars = chars_of(command);
    let ghost s = command@;
    let n = chars.len();
    let mut found: Vec<String> = Vec::new();
    let mut i: usize = 0;
    assert(views(found@).to_set() =~= Set::<Seq<char>>::empty());
    while i < n
        invariant
            chars@ == s,
            n == s.len(),
            i <= n,
            strictly_sorted(views(found@)),
            names_from(s, 0) == views(found@).to_set() + names_from(s, i as int),
        decreases n - i,
    {
        if chars[i] == '{' {
            if i + 1 < n && chars[i + 1] == '{' {
                i = i + 2;
                continue;
            }
            let mut j = i + 1;
            proof {
                lemma_close_index(s, i + 1);
            }
            while j < n && chars[j] != '}'
                invariant
                    chars@ == s,
                    n == s.len(),
                    i < n,
                    i + 1 <= j <= n,
                    close_index(s, i + 1) == close_index(s, j as int),
                decreases n - j,
            {
                j = j + 1;
            }
            if j < n && j > i + 1 {
                let name = string_of(&chars, i + 1, j);
                let ghost before = views(found@).to_set();
                if is_valid_name(name.as_str()) {
                    insert_sorted(&mut found, name);
                    assert(views(found@).to_set() + names_from(s, j + 1) =~= before + names_from(
                        s,
                        i as int,
                    ));
                }
                i = j + 1;
                continue;
            }
        }
        i = i + 1;
    }
    assert(views(found@).to_set() + names_from(s, i as int) =~= views(found@).to_set());
    proof {
        lemma_listing_is_sorted_listing(views(found@), placeholder_names(s));
    }
    found
}

/// `command` with its placeholders replaced by `values` and its escapes resolved.
pub fn render(command: &str, values: &StrMap<String>) -> (r: String)
    ensures
        r@ == rendered(command@, text_values(values@)),
{
    let chars = chars_of(command);
    let ghost s = command@;
    let ghost vals = text_values(values@);
    let n = chars.len();
    let mut out = String::new();
    let mut i: usize = 0;
    while i < n
        invariant
            chars@ == s,
            n == s.len(),
            i <= n,
            vals == text_values(values@),
            out@ + render_from(s, i as int, vals) == render_from(s, 0, vals),
        decreases n - i,
    {
        let ghost out_before = out@;
        if chars[i] == '{' {
            if i + 1 < n && chars[i + 1] == '{' {
                push_char(&mut out, '{');
                i = i + 2;
                assert(out@ + render_from(s, i as int, vals) =~= out_before + render_from(
                    s,
                    i - 2,
                    vals,
                ));
                continue;
            }
            let mut j = i + 1;
            proof {
                lemma_close_index(s, i + 1);
            }
            while j < n && chars[j] != '}'
                invariant
                    chars@ == s,
                    n == s.len(),
                    i < n,
                    i + 1 <= j <= n,
                    close_index(s, i + 1) == close_index(s, j as int),
                decreases n - j,
            {
                j = j + 1;
            }
            if j < n && j > i + 1 {
                let name = string_of(&chars, i + 1, j);
                match values.get(name.as_str()) {
                    Some(value) => {
                        out.append(value.as_str());
                        let ghost start = i;
                        i = j + 1;
                        assert(out@ + render_from(s, i as int, vals) =~= out_before + render_from(
                            s,
                            start as int,
                            vals,
                        ));
                        continue;
                    },
                    None => {},
                }
            }
        } else if chars[i] == '}' {
            if i + 1 < n && chars[i + 1] == '}' {
                push_char(&mut out, '}');
                i = i + 2;
                assert(out@ + render_from(s, i as int, vals) =~= out_before + render_from(
                    s,
                    i - 2,
                    vals,
                ));
                continue;
            }
        }
        push_char(&mut out, chars[i]);
        i = i + 1;
        assert(out@ + render_from(s, i as int, vals) =~= out_before + render_from(
            s,
            i - 1,
            vals,
        ));
    }
    assert(out@ + render_from(s, i as int, vals) =~= out@);
    out
}

/// The whitespace-separated words of `input`.
fn split_words(input: &str) -> (r: Vec<String>)
    ensures
        views(r@) == words(input@),
{
    let chars = chars_of(input);
    let ghost s = input@;
    let n = chars.len();
    let mut tokens: Vec<String> = Vec::new();
    let mut in_word = false;
    let mut i: usize = 0;
    assert(views(tokens@) =~= words(s.take(0)));
    while i < n
        invariant
            chars@ == s,
            n == s.len(),
            i <= n,
            views(tokens@) == words(s.take(i as int)),
            in_word == (i > 0 && !is_ws(s[i - 1])),
        decreases n - i,
    {
        let c = chars[i];
        let ghost prefix = s.take(i + 1);
        assert(prefix.drop_last() =~= s.take(i as int));
        assert(prefix.last() == c);
        if whitespace(c) {
            in_word = false;
        } else if in_word {
            proof {
                assert(prefix[prefix.len() - 2] == s[i - 1]);
                lemma_words_nonempty(s.take(i as int));
            }
            let ghost before = views(tokens@);
            let mut last = tokens.pop().unwrap();
            push_char(&mut last, c);
            tokens.push(last);
            assert(views(tokens@) =~= before.drop_last().push(before.last().push(c)));
        } else {
            let mut w = String::new();
            push_char(&mut w, c);
            let ghost before = views(tokens@);
            tokens.push(w);
            assert(views(tokens@) =~= before.push(seq![c]));
            in_word = true;
        }
        i = i + 1;
    }
    assert(s.take(n as int) =~= s);
    tokens
}

/// The `key=value` assignments written in `input`, separated by whitespace: words without `=`,
/// with an invalid key or with an empty value are ignored, and a later word overrides an
/// earlier one with the same key.
pub fn parse_assignment_values(input: &str) -> (r: StrMap<String>)
    ensures
        text_values(r@) == assignment_values(input@),
{
    let tokens = split_words(input);
    let ghost toks = views(tokens@);
    let mut values: StrMap<String> = StrMap::new();
    let n = tokens.len();
    let mut t: usize = 0;
    assert(text_values(values@) =~= assignment_map(toks.take(0)));
    while t < n
        invariant
            n == tokens.len(),
            toks == views(tokens@),
            t <= n,
            text_values(values@) == assignment_map(toks.take(t as int)),
        decreases n - t,
    {
        assert(toks.take(t + 1).drop_last() =~= toks.take(t as int));
        assert(toks.take(t + 1).last() == tokens@[t as int]@);
        match split_once_char(tokens[t].as_str(), '=') {
            Some(kv) => {
                let (key, value) = kv;
                if is_valid_name(key.as_str()) && value.unicode_len() > 0 {
                    let ghost before = values@;
                    values.insert(key, value);
                    assert(text_values(values@) =~= text_values(before).insert(key@, value@));
                }
            },
            None => {},
        }
        t = t + 1;
    }
    assert(toks.take(n as int) =~= toks);
    values
}

/// A command compiled once, with its placeholder names at hand.
pub struct Template {
    text: String,
    names: Vec<String>,
}

impl View for Template {
    type V = Seq<char>;

    closed spec fn view(&self) -> Seq<char> {
        self.text@
    }
}

impl Template {
    #[verifier::type_invariant]
    spec fn names_match(self) -> bool {
        &&& views(self.names@) == placeholder_list(self.text@)
        &&& is_listing(views(self.names@), placeholder_names(self.text@))
    }

    /// Compiles `command`.
    pub fn parse(command: &str) -> (r: Template)
        ensures
            r@ == command@,
    {
        let names = placeholders(command);
        Template { text: String::from_str(command), names }
    }

    /// The command text.
    pub fn source(&self) -> (r: &str)
        ensures
            r@ == self@,
    {
        self.text.as_str()
    }

    /// The placeholder names, each once, in increasing order.
    pub fn placeholders(&self) -> (r: Vec<String>)
        ensures
            views(r@) == placeholder_list(self@),
            is_listing(views(r@), placeholder_names(self@)),
    {
        proof {
            use_type_invariant(self);
        }
        let mut out: Vec<String> = Vec::new();
        let n = self.names.len();
        let mut i: usize = 0;
        while i < n
            invariant
                n == self.names.len(),
                i <= n,
                views(out@) == views(self.names@).take(i as int),
            decreases n - i,
        {
            let name = self.names[i].clone();
            assert(name@ == self.names@[i as int]@);
            let ghost before = out@;
            out.push(name);
            assert(out@ == before.push(name));
            assert(views(out@) =~= views(before).push(name@));
            assert(views(self.names@).take(i + 1) =~= views(self.names@).take(i as int).push(
                self.names@[i as int]@,
            ));
            i = i + 1;
            assert(views(out@) =~= views(self.names@).take(i as int));
        }
        assert(views(self.names@).take(n as int) =~= views(self.names@));
        out
    }

    /// The command with its placeholders replaced by `values`.
    pub fn render(&self, values: &StrMap<String>) -> (r: String)
        ensures
            r@ == rendered(self@, text_values(values@)),
    {
        render(self.text.as_str(), values)
    }
}

} // verus!
