//! Predicates on names: suffix, substring and the lexical order of code points.

use vstd::prelude::*;
use vstd::std_specs::iter::IteratorSpec;
use vstd::string::*;

verus! {

/// `name` ends with `suffix`.
pub open spec fn is_suffix(name: Seq<char>, suffix: Seq<char>) -> bool {
    suffix.len() <= name.len() && name.skip(name.len() - suffix.len()) == suffix
}

/// `text` stands in `name` at position `at`.
pub open spec fn occurs_at(name: Seq<char>, text: Seq<char>, at: int) -> bool {
    0 <= at && at + text.len() <= name.len() && name.subrange(at, at + text.len()) == text
}

/// `text` stands somewhere in `name`. Letters match by code point, so the test
/// is case-sensitive.
pub open spec fn is_infix(name: Seq<char>, text: Seq<char>) -> bool {
    exists|at: int| occurs_at(name, text, at)
}

/// The lexical order of names, code point by code point: a name comes before
/// every longer name that it begins, and otherwise the first position where two
/// names differ decides.
pub open spec fn name_le(a: Seq<char>, b: Seq<char>) -> bool
    decreases a.len(),
{
    if a.len() == 0 {
        true
    } else if b.len() == 0 {
        false
    } else if a[0] != b[0] {
        (a[0] as u32) < (b[0] as u32)
    } else {
        name_le(a.drop_first(), b.drop_first())
    }
}

/// Every name is in order with itself.
pub proof fn lemma_name_le_reflexive(a: Seq<char>)
    ensures
        name_le(a, a),
    decreases a.len(),
{
    if a.len() > 0 {
        lemma_name_le_reflexive(a.drop_first());
    }
}

/// Of two names, one comes no later than the other.
pub proof fn lemma_name_le_total(a: Seq<char>, b: Seq<char>)
    ensures
        name_le(a, b) || name_le(b, a),
    decreases a.len(),
{
    if a.len() > 0 && b.len() > 0 {
        if a[0] == b[0] {
            lemma_name_le_total(a.drop_first(), b.drop_first());
        } else {
            vstd::utf8::char_u32_cast(a[0], a[0] as u32);
            vstd::utf8::char_u32_cast(b[0], b[0] as u32);
        }
    }
}

/// The order of names carries over a name in between.
pub proof fn lemma_name_le_transitive(a: Seq<char>, b: Seq<char>, c: Seq<char>)
    requires
        name_le(a, b),
        name_le(b, c),
    ensures
        name_le(a, c),
    decreases a.len(),
{
    if a.len() > 0 && a[0] == b[0] && b[0] == c[0] {
        lemma_name_le_transitive(a.drop_first(), b.drop_first(), c.drop_first());
    }
}

/// Two names that are in order both ways are the same name: the order of
/// names is strict between different names.
pub proof fn law_name_le_antisymmetric(a: Seq<char>, b: Seq<char>)
    requires
        name_le(a, b),
        name_le(b, a),
    ensures
        a == b,
    decreases a.len(),
{
    if a.len() > 0 {
        law_name_le_antisymmetric(a.drop_first(), b.drop_first());
        assert(a =~= seq![a[0]] + a.drop_first());
        assert(b =~= seq![b[0]] + b.drop_first());
    } else {
        assert(a =~= b);
    }
}

/// A text that ends a name stands in it.
pub proof fn lemma_suffix_is_infix(name: Seq<char>, suffix: Seq<char>)
    requires
        is_suffix(name, suffix),
    ensures
        is_infix(name, suffix),
{
    let at = name.len() - suffix.len();
    assert(name.subrange(at, at + suffix.len()) =~= name.skip(at));
    assert(occurs_at(name, suffix, at));
}

/// A text that stands in a text that stands in a name stands in the name.
pub proof fn lemma_infix_transitive(name: Seq<char>, long: Seq<char>, short: Seq<char>)
    requires
        is_infix(name, long),
        is_infix(long, short),
    ensures
        is_infix(name, short),
{
    let a = choose|a: int| occurs_at(name, long, a);
    let b = choose|b: int| occurs_at(long, short, b);
    assert(name.subrange(a + b, a + b + short.len()) =~= name.subrange(a, a + long.len()).subrange(
        b,
        b + short.len(),
    ));
    assert(occurs_at(name, short, a + b));
}

/// The characters of a string, one element each.
pub fn chars_of(s: &str) -> (v: Vec<char>)
    ensures
        v@ == s@,
{
    let mut v: Vec<char> = Vec::new();
    let mut it = s.chars();
    loop
        invariant
            it.obeys_prophetic_iter_laws(),
            v@ + it.remaining() == s@,
        decreases s@.len() - v@.len(),
    {
        match it.next() {
            Some(c) => {
                v.push(c);
            },
            None => {
                return v;
            },
        }
    }
}

/// Tells whether two texts are the same, letter for letter.
pub fn same_text(a: &str, b: &str) -> (r: bool)
    ensures
        r == (a@ == b@),
{
    let mut ia = a.chars();
    let mut ib = b.chars();
    let ghost mut n: int = 0;
    loop
        invariant
            ia.obeys_prophetic_iter_laws(),
            ib.obeys_prophetic_iter_laws(),
            0 <= n <= a@.len(),
            n <= b@.len(),
            ia.remaining() == a@.skip(n),
            ib.remaining() == b@.skip(n),
            a@.take(n) == b@.take(n),
        decreases a@.len() - n,
    {
        let ca = ia.next();
        let cb = ib.next();
        match (ca, cb) {
            (None, None) => {
                proof {
                    assert(a@.take(n) =~= a@);
                    assert(b@.take(n) =~= b@);
                }
                return true;
            },
            (Some(x), Some(y)) => {
                if x != y {
                    assert(a@[n] != b@[n]);
                    return false;
                }
                proof {
                    assert(a@.skip(n).drop_first() =~= a@.skip(n + 1));
                    assert(b@.skip(n).drop_first() =~= b@.skip(n + 1));
                    assert(a@.take(n + 1) =~= a@.take(n).push(a@[n]));
                    assert(b@.take(n + 1) =~= b@.take(n).push(b@[n]));
                    n = n + 1;
                }
            },
            _ => {
                assert(a@.len() != b@.len());
                return false;
            },
        }
    }
}

/// Compares two names in lexical order.
pub fn name_le_exec(a: &str, b: &str) -> (r: bool)
    ensures
        r == name_le(a@, b@),
{
    let mut ia = a.chars();
    let mut ib = b.chars();
    let ghost mut n: int = 0;
    loop
        invariant
            ia.obeys_prophetic_iter_laws(),
            ib.obeys_prophetic_iter_laws(),
            0 <= n <= a@.len(),
            ia.remaining().len() == a@.len() - n,
            name_le(a@, b@) == name_le(ia.remaining(), ib.remaining()),
        decreases a@.len() - n,
    {
        match ia.next() {
            None => {
                return true;
            },
            Some(ca) => {
                match ib.next() {
                    None => {
                        return false;
                    },
                    Some(cb) => {
                        if ca != cb {
                            return (ca as u32) < (cb as u32);
                        }
                        proof {
                            n = n + 1;
                        }
                    },
                }
            },
        }
    }
}

/// Tells whether `text` stands in `name` at position `at`.
fn matches_at(name: &Vec<char>, text: &Vec<char>, at: usize) -> (r: bool)
    requires
        at + text.len() <= name.len(),
    ensures
        r == occurs_at(name@, text@, at as int),
{
    let mut i: usize = 0;
    while i < text.len()
        invariant
            i <= text.len(),
            at + text.len() <= name.len(),
            forall|j: int| 0 <= j < i ==> name@[at + j] == text@[j],
        decreases text.len() - i,
    {
        if name[at + i] != text[i] {
            assert(name@.subrange(at as int, at + text@.len())[i as int] != text@[i as int]);
            return false;
        }
        i += 1;
    }
    assert(name@.subrange(at as int, at + text@.len()) =~= text@);
    true
}

/// Tells whether `name` ends with `suffix`, taken letter for letter.
pub fn ends_with(name: &str, suffix: &str) -> (r: bool)
    ensures
        r == is_suffix(name@, suffix@),
{
    let n = chars_of(name);
    let s = chars_of(suffix);
    if s.len() > n.len() {
        return false;
    }
    let at: usize = n.len() - s.len();
    assert(n@.skip(at as int) =~= n@.subrange(at as int, at + s@.len()));
    matches_at(&n, &s, at)
}

/// Tells whether `text` stands anywhere in `name`, taken letter for letter.
pub fn contains(name: &str, text: &str) -> (r: bool)
    ensures
        r == is_infix(name@, text@),
{
    let n = chars_of(name);
    let t = chars_of(text);
    if t.len() > n.len() {
        return false;
    }
    let last: usize = n.len() - t.len();
    let mut at: usize = 0;
    loop
        invariant
            at <= last,
            last == n.len() - t.len(),
            n@ == name@,
            t@ == text@,
            forall|k: int| 0 <= k < at ==> !occurs_at(name@, text@, k),
        decreases last - at,
    {
        if matches_at(&n, &t, at) {
            return true;
        }
        if at == last {
            return false;
        }
        at += 1;
    }
}

} // verus!
