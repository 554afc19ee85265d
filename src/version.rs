//! Version keys and the numeric order in which the ledger lists them.
use vstd::prelude::*;
use std::cmp::Ordering;
use crate::text::{chars_of, push_all, string_from_chars};

verus! {

/// Most components that a version key keeps.
pub const KEY_COMPONENTS: usize = 4;

/// The pieces of `s` between dots, as `str::split('.')` yields them: an empty
/// text gives one empty piece, and each dot starts a new piece.
pub open spec fn split_dots(s: Seq<char>) -> Seq<Seq<char>>
    decreases s.len(),
{
    if s.len() == 0 {
        seq![Seq::<char>::empty()]
    } else {
        let rest = split_dots(s.drop_last());
        if s.last() == '.' {
            rest.push(Seq::<char>::empty())
        } else {
            rest.update(rest.len() - 1, rest.last().push(s.last()))
        }
    }
}

/// The pieces joined back together with a dot between each two.
pub open spec fn join_dots(parts: Seq<Seq<char>>) -> Seq<char>
    decreases parts.len(),
{
    if parts.len() == 0 {
        Seq::<char>::empty()
    } else if parts.len() == 1 {
        parts[0]
    } else {
        join_dots(parts.drop_last()).push('.') + parts.last()
    }
}

/// The key of a client version: its first four dot-separated components,
/// or all of them where there are fewer.
pub open spec fn key_of(s: Seq<char>) -> Seq<char> {
    let parts = split_dots(s);
    if parts.len() <= KEY_COMPONENTS {
        join_dots(parts)
    } else {
        join_dots(parts.take(KEY_COMPONENTS as int))
    }
}

pub open spec fn is_digit(c: char) -> bool {
    '0' <= c && c <= '9'
}

/// The value of a string of decimal digits.
pub open spec fn digits_value(s: Seq<char>) -> nat
    decreases s.len(),
{
    if s.len() == 0 {
        0
    } else {
        digits_value(s.drop_last()) * 10 + (s.last() as nat - '0' as nat) as nat
    }
}

/// The digits that follow an optional leading plus sign.
pub open spec fn unsigned_digits(s: Seq<char>) -> Seq<char> {
    if s.len() > 0 && s[0] == '+' {
        s.drop_first()
    } else {
        s
    }
}

/// What `s` reads as as an unsigned 32-bit integer, the way `u32::from_str`
/// reads it: an optional `+`, then one or more decimal digits, of a value
/// that fits.
pub open spec fn component_number(s: Seq<char>) -> Option<u32> {
    let d = unsigned_digits(s);
    if d.len() > 0 && (forall|i: int| 0 <= i < d.len() ==> is_digit(d[i]))
        && digits_value(d) <= u32::MAX {
        Some(digits_value(d) as u32)
    } else {
        None
    }
}

/// The numbers among the pieces, in order; pieces that are no number are skipped.
pub open spec fn numbers_of(parts: Seq<Seq<char>>) -> Seq<u32>
    decreases parts.len(),
{
    if parts.len() == 0 {
        Seq::<u32>::empty()
    } else {
        let rest = numbers_of(parts.drop_last());
        match component_number(parts.last()) {
            Some(n) => rest.push(n),
            None => rest,
        }
    }
}

/// The numeric components of a version text.
pub open spec fn version_numbers(s: Seq<char>) -> Seq<u32> {
    numbers_of(split_dots(s))
}

/// Lexicographic order of two number sequences; a strict prefix is less.
pub open spec fn lex_cmp(a: Seq<u32>, b: Seq<u32>) -> Ordering
    decreases a.len(),
{
    if a.len() == 0 {
        if b.len() == 0 {
            Ordering::Equal
        } else {
            Ordering::Less
        }
    } else if b.len() == 0 {
        Ordering::Greater
    } else if a[0] < b[0] {
        Ordering::Less
    } else if a[0] > b[0] {
        Ordering::Greater
    } else {
        lex_cmp(a.drop_first(), b.drop_first())
    }
}

/// The order of the ledger: the version with the greater numbers comes first.
pub open spec fn version_order(a: Seq<char>, b: Seq<char>) -> Ordering {
    lex_cmp(version_numbers(b), version_numbers(a))
}

pub proof fn lemma_split_nonempty(s: Seq<char>)
    ensures
        split_dots(s).len() >= 1,
    decreases s.len(),
{
    if s.len() > 0 {
        lemma_split_nonempty(s.drop_last());
    }
}

/// The pieces of `s` between dots.
pub fn split_components(s: &Vec<char>) -> (r: Vec<Vec<char>>)
    ensures
        r@.len() == split_dots(s@).len(),
        forall|i: int| 0 <= i < r@.len() ==> #[trigger] r@[i]@ == split_dots(s@)[i],
{
    let mut parts: Vec<Vec<char>> = Vec::new();
    parts.push(Vec::new());
    let mut i: usize = 0;
    proof {
        assert(s@.subrange(0, 0) =~= Seq::<char>::empty());
    }
    while i < s.len()
        invariant
            i <= s@.len(),
            parts@.len() >= 1,
            parts@.len() == split_dots(s@.subrange(0, i as int)).len(),
            forall|j: int| 0 <= j < parts@.len() ==> #[trigger] parts@[j]@ == split_dots(
                s@.subrange(0, i as int),
            )[j],
        decreases s.len() - i,
    {
        let c = s[i];
        proof {
            let t = s@.subrange(0, i as int + 1);
            assert(t.drop_last() =~= s@.subrange(0, i as int));
            assert(t.last() == c);
        }
        if c == '.' {
            parts.push(Vec::new());
        } else {
            let last = parts.len() - 1;
            let mut piece = parts.pop().unwrap();
            piece.push(c);
            parts.push(piece);
            proof {
                assert(last == parts@.len() - 1);
            }
        }
        i += 1;
        proof {
            let t = s@.subrange(0, i as int);
            assert forall|j: int| 0 <= j < parts@.len() implies #[trigger] parts@[j]@
                == split_dots(t)[j] by {
                if j == parts@.len() - 1 {
                    assert(parts@[j]@ =~= split_dots(t)[j]);
                }
            }
        }
    }
    proof {
        assert(s@.subrange(0, s@.len() as int) =~= s@);
    }
    parts
}

proof fn lemma_digits_prefix(s: Seq<char>, k: int)
    requires
        0 <= k <= s.len(),
        forall|i: int| 0 <= i < s.len() ==> is_digit(s[i]),
    ensures
        digits_value(s.take(k)) <= digits_value(s),
    decreases s.len(),
{
    if k < s.len() {
        assert(s.drop_last().take(k) =~= s.take(k));
        lemma_digits_prefix(s.drop_last(), k);
    } else {
        assert(s.take(k) =~= s);
    }
}

/// Reads a piece as an unsigned 32-bit integer: an optional `+`, then
/// decimal digits whose value fits.
pub fn parse_component(piece: &Vec<char>) -> (r: Option<u32>)
    ensures
        r == component_number(piece@),
{
    let start: usize = if piece.len() > 0 && piece[0] == '+' {
        1
    } else {
        0
    };
    let ghost d = unsigned_digits(piece@);
    proof {
        assert(d =~= piece@.subrange(start as int, piece@.len() as int));
    }
    if start >= piece.len() {
        assert(d.len() == 0);
        return None;
    }
    let mut value: u64 = 0;
    let mut i: usize = start;
    while i < piece.len()
        invariant
            start <= i <= piece@.len(),
            d == piece@.subrange(start as int, piece@.len() as int),
            d == unsigned_digits(piece@),
            forall|j: int| start <= j < i ==> is_digit(piece@[j]),
            value == digits_value(d.take(i - start)),
            value <= u32::MAX,
        decreases piece.len() - i,
    {
        let c = piece[i];
        if !('0' <= c && c <= '9') {
            proof {
                assert(d[i - start] == c);
                assert(!is_digit(d[i - start]));
            }
            return None;
        }
        proof {
            let t = d.take(i - start + 1);
            assert(t.drop_last() =~= d.take(i - start));
            assert(t.last() == c);
        }
        let digit: u64 = (c as u32 - '0' as u32) as u64;
        value = value * 10 + digit;
        i += 1;
        if value > u32::MAX as u64 {
            let mut k: usize = i;
            while k < piece.len()
                invariant
                    start < k <= piece@.len(),
                    d == piece@.subrange(start as int, piece@.len() as int),
                    d == unsigned_digits(piece@),
                    forall|j: int| start <= j < k ==> is_digit(piece@[j]),
                    digits_value(d.take(i - start)) > u32::MAX,
                    start < i <= k,
                decreases piece.len() - k,
            {
                let c2 = piece[k];
                if !('0' <= c2 && c2 <= '9') {
                    proof {
                        assert(d[k - start] == c2);
                        assert(!is_digit(d[k - start]));
                    }
                    return None;
                }
                k += 1;
            }
            proof {
                assert forall|j: int| 0 <= j < d.len() implies is_digit(d[j]) by {
                    assert(d[j] == piece@[start + j]);
                }
                lemma_digits_prefix(d, i - start);
            }
            return None;
        }
    }
    proof {
        assert(d.take(i - start) =~= d);
        assert forall|j: int| 0 <= j < d.len() implies is_digit(d[j]) by {
            assert(d[j] == piece@[start + j]);
        }
    }
    Some(value as u32)
}

/// The numbers among the pieces, in order.
fn numbers_from_parts(parts: &Vec<Vec<char>>, pv: Ghost<Seq<Seq<char>>>) -> (r: Vec<u32>)
    requires
        parts@.len() == pv@.len(),
        forall|i: int| 0 <= i < parts@.len() ==> #[trigger] parts@[i]@ == pv@[i],
    ensures
        r@ == numbers_of(pv@),
{
    let mut out: Vec<u32> = Vec::new();
    let mut i: usize = 0;
    while i < parts.len()
        invariant
            i <= parts@.len(),
            parts@.len() == pv@.len(),
            forall|j: int| 0 <= j < parts@.len() ==> #[trigger] parts@[j]@ == pv@[j],
            out@ == numbers_of(pv@.take(i as int)),
        decreases parts.len() - i,
    {
        let n = parse_component(&parts[i]);
        proof {
            let t = pv@.take(i as int + 1);
            assert(t.drop_last() =~= pv@.take(i as int));
            assert(t.last() == parts@[i as int]@);
        }
        match n {
            Some(v) => out.push(v),
            None => {},
        }
        i += 1;
    }
    proof {
        assert(pv@.take(pv@.len() as int) =~= pv@);
    }
    out
}

/// The numeric components of a version text, in order.
pub fn numeric_components(s: &str) -> (r: Vec<u32>)
    ensures
        r@ == version_numbers(s@),
{
    let cs = chars_of(s);
    let parts = split_components(&cs);
    numbers_from_parts(&parts, Ghost(split_dots(s@)))
}

/// Compares two number sequences lexicographically.
pub fn compare_numbers(a: &Vec<u32>, b: &Vec<u32>) -> (r: Ordering)
    ensures
        r == lex_cmp(a@, b@),
{
    let mut i: usize = 0;
    proof {
        assert(a@.skip(0) =~= a@);
        assert(b@.skip(0) =~= b@);
    }
    while i < a.len() && i < b.len() && a[i] == b[i]
        invariant
            i <= a@.len(),
            i <= b@.len(),
            lex_cmp(a@, b@) == lex_cmp(a@.skip(i as int), b@.skip(i as int)),
        decreases a.len() - i,
    {
        proof {
            assert(a@.skip(i as int).drop_first() =~= a@.skip(i as int + 1));
            assert(b@.skip(i as int).drop_first() =~= b@.skip(i as int + 1));
        }
        i += 1;
    }
    if i == a.len() {
        if i == b.len() {
            Ordering::Equal
        } else {
            Ordering::Less
        }
    } else if i == b.len() {
        Ordering::Greater
    } else if a[i] < b[i] {
        Ordering::Less
    } else {
        Ordering::Greater
    }
}

/// Orders two version keys for the ledger: the one whose numeric components
/// are lexicographically greater comes first (`Less`). Components that are no
/// unsigned 32-bit integer take no part.
pub fn compare_versions(a: &str, b: &str) -> (r: Ordering)
    ensures
        r == version_order(a@, b@),
{
    let parts_a = numeric_components(a);
    let parts_b = numeric_components(b);
    compare_numbers(&parts_b, &parts_a)
}

/// The key of a client version: at most its first four dot-separated
/// components, joined by dots.
pub fn version_key(client_version: &str) -> (r: String)
    ensures
        r@ == key_of(client_version@),
{
    let cs = chars_of(client_version);
    let parts = split_components(&cs);
    let ghost pv = split_dots(client_version@);
    let n: usize = if parts.len() < KEY_COMPONENTS {
        parts.len()
    } else {
        KEY_COMPONENTS
    };
    let mut out: Vec<char> = Vec::new();
    let mut j: usize = 0;
    while j < n
        invariant
            j <= n <= parts@.len(),
            n <= KEY_COMPONENTS,
            parts@.len() == pv.len(),
            forall|i: int| 0 <= i < parts@.len() ==> #[trigger] parts@[i]@ == pv[i],
            out@ == join_dots(pv.take(j as int)),
        decreases n - j,
    {
        proof {
            let t = pv.take(j as int + 1);
            assert(t.drop_last() =~= pv.take(j as int));
            assert(t.last() == parts@[j as int]@);
        }
        if j > 0 {
            out.push('.');
        }
        push_all(&mut out, &parts[j]);
        j += 1;
    }
    proof {
        if pv.len() <= KEY_COMPONENTS {
            assert(pv.take(n as int) =~= pv);
        }
    }
    string_from_chars(&out)
}

/// Two sequences compare equal exactly when they are the same sequence.
pub proof fn lemma_lex_equal(a: Seq<u32>, b: Seq<u32>)
    ensures
        (lex_cmp(a, b) == Ordering::Equal) <==> (a == b),
    decreases a.len(),
{
    if a.len() > 0 && b.len() > 0 && a[0] == b[0] {
        lemma_lex_equal(a.drop_first(), b.drop_first());
        if a.drop_first() == b.drop_first() {
            assert(a =~= seq![a[0]] + a.drop_first());
            assert(b =~= seq![b[0]] + b.drop_first());
        }
        if a == b {
            assert(a.drop_first() == b.drop_first());
        }
    } else if a.len() == 0 && b.len() != 0 {
        assert(a != b);
    } else if a.len() != 0 && b.len() == 0 {
        assert(a != b);
    } else if a.len() > 0 && b.len() > 0 {
        assert(a[0] != b[0]);
    } else {
        assert(a =~= b);
    }
}

/// Swapping the operands reverses the order.
pub proof fn lemma_lex_swap(a: Seq<u32>, b: Seq<u32>)
    ensures
        (lex_cmp(a, b) == Ordering::Less) <==> (lex_cmp(b, a) == Ordering::Greater),
        (lex_cmp(a, b) == Ordering::Equal) <==> (lex_cmp(b, a) == Ordering::Equal),
    decreases a.len(),
{
    if a.len() > 0 && b.len() > 0 && a[0] == b[0] {
        lemma_lex_swap(a.drop_first(), b.drop_first());
    }
}

/// The order is transitive, and strict as soon as one step is.
pub proof fn lemma_lex_trans(a: Seq<u32>, b: Seq<u32>, c: Seq<u32>)
    requires
        lex_cmp(a, b) != Ordering::Greater,
        lex_cmp(b, c) != Ordering::Greater,
    ensures
        lex_cmp(a, c) != Ordering::Greater,
        (lex_cmp(a, b) == Ordering::Less || lex_cmp(b, c) == Ordering::Less) ==> lex_cmp(a, c)
            == Ordering::Less,
    decreases a.len(),
{
    if a.len() > 0 && b.len() > 0 && c.len() > 0 && a[0] == b[0] && b[0] == c[0] {
        lemma_lex_trans(a.drop_first(), b.drop_first(), c.drop_first());
    }
}

pub open spec fn has_no_dot(p: Seq<char>) -> bool {
    forall|j: int| 0 <= j < p.len() ==> p[j] != '.'
}

proof fn lemma_split_append(s: Seq<char>, t: Seq<char>)
    ensures
        split_dots(s.push('.') + t) == split_dots(s) + split_dots(t),
    decreases t.len(),
{
    let u = s.push('.') + t;
    if t.len() == 0 {
        assert(u =~= s.push('.'));
        assert(u.drop_last() =~= s);
        assert(split_dots(s) + split_dots(t) =~= split_dots(s).push(Seq::<char>::empty()));
    } else {
        assert(u.drop_last() =~= s.push('.') + t.drop_last());
        lemma_split_append(s, t.drop_last());
        lemma_split_nonempty(t.drop_last());
        lemma_split_nonempty(s);
        let a = split_dots(s);
        let b = split_dots(t.drop_last());
        if t.last() == '.' {
            assert((a + b).push(Seq::<char>::empty()) =~= a + b.push(Seq::<char>::empty()));
        } else {
            let ab = a + b;
            assert(ab.update(ab.len() - 1, ab.last().push(t.last())) =~= a + b.update(
                b.len() - 1,
                b.last().push(t.last()),
            ));
        }
    }
}

proof fn lemma_split_pieces_no_dot(s: Seq<char>)
    ensures
        forall|i: int| 0 <= i < split_dots(s).len() ==> has_no_dot(#[trigger] split_dots(s)[i]),
    decreases s.len(),
{
    if s.len() > 0 {
        lemma_split_pieces_no_dot(s.drop_last());
        lemma_split_nonempty(s.drop_last());
        let rest = split_dots(s.drop_last());
        if s.last() != '.' {
            let p = rest.last().push(s.last());
            assert(has_no_dot(rest[rest.len() - 1]));
            assert(has_no_dot(p)) by {
                assert forall|j: int| 0 <= j < p.len() implies p[j] != '.' by {
                    if j < p.len() - 1 {
                        assert(p[j] == rest[rest.len() - 1][j]);
                    }
                }
            }
        }
    }
}

proof fn lemma_split_no_dot(p: Seq<char>)
    requires
        has_no_dot(p),
    ensures
        split_dots(p) == seq![p],
    decreases p.len(),
{
    if p.len() == 0 {
        assert(p =~= Seq::<char>::empty());
        assert(split_dots(p) =~= seq![p]);
    } else {
        assert(has_no_dot(p.drop_last())) by {
            assert forall|j: int| 0 <= j < p.drop_last().len() implies p.drop_last()[j] != '.' by {
                assert(p.drop_last()[j] == p[j]);
            }
        }
        lemma_split_no_dot(p.drop_last());
        assert(p.last() != '.') by {
            assert(p[p.len() - 1] != '.');
        }
        let rest = split_dots(p.drop_last());
        assert(rest.len() == 1 && rest.last() == p.drop_last());
        assert(p.drop_last().push(p.last()) =~= p);
        assert(split_dots(p) =~= seq![p]);
    }
}

proof fn lemma_split_join(parts: Seq<Seq<char>>)
    requires
        parts.len() >= 1,
        forall|i: int| 0 <= i < parts.len() ==> has_no_dot(#[trigger] parts[i]),
    ensures
        split_dots(join_dots(parts)) == parts,
    decreases parts.len(),
{
    if parts.len() == 1 {
        lemma_split_no_dot(parts[0]);
        assert(seq![parts[0]] =~= parts);
    } else {
        let init = parts.drop_last();
        assert forall|i: int| 0 <= i < init.len() implies has_no_dot(#[trigger] init[i]) by {
            assert(init[i] == parts[i]);
        }
        lemma_split_join(init);
        lemma_split_append(join_dots(init), parts.last());
        lemma_split_no_dot(parts.last());
        assert(init + seq![parts.last()] =~= parts);
    }
}

/// Taking the key of a key changes nothing.
pub proof fn lemma_key_idempotent(x: Seq<char>)
    ensures
        key_of(key_of(x)) == key_of(x),
{
    let parts = split_dots(x);
    lemma_split_nonempty(x);
    lemma_split_pieces_no_dot(x);
    let kept = if parts.len() <= KEY_COMPONENTS {
        parts
    } else {
        parts.take(KEY_COMPONENTS as int)
    };
    assert forall|i: int| 0 <= i < kept.len() implies has_no_dot(#[trigger] kept[i]) by {
        assert(kept[i] == parts[i]);
    }
    lemma_split_join(kept);
}

/// Components appended after a key of four components fall away again: the
/// key of `key_of(x)` followed by a dot and any text, such as `0.0.0.0`, is
/// `key_of(x)`, wherever `x` has at least four components.
pub proof fn lemma_key_ignores_appended(x: Seq<char>, tail: Seq<char>)
    requires
        split_dots(x).len() >= KEY_COMPONENTS,
    ensures
        key_of(key_of(x).push('.') + tail) == key_of(x),
{
    let parts = split_dots(x);
    lemma_split_pieces_no_dot(x);
    let kept = parts.take(KEY_COMPONENTS as int);
    assert forall|i: int| 0 <= i < kept.len() implies has_no_dot(#[trigger] kept[i]) by {
        assert(kept[i] == parts[i]);
    }
    if parts.len() == KEY_COMPONENTS {
        assert(kept =~= parts);
    }
    lemma_split_join(kept);
    lemma_split_append(key_of(x), tail);
    lemma_split_nonempty(tail);
    let all = kept + split_dots(tail);
    assert(all.take(KEY_COMPONENTS as int) =~= kept);
}

} // verus!
