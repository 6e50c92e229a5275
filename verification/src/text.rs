//! Operations on character sequences, and their executable forms on `&str`
//! and `Vec<char>`.

use vstd::prelude::*;

verus! {

/// `s` ends with `pat`.
pub open spec fn ends_with(s: Seq<char>, pat: Seq<char>) -> bool {
    pat.len() <= s.len() && s.subrange(s.len() - pat.len(), s.len() as int) == pat
}

/// `s` starts with `pat`.
pub open spec fn starts_with(s: Seq<char>, pat: Seq<char>) -> bool {
    pat.len() <= s.len() && s.subrange(0, pat.len() as int) == pat
}

/// `s` without every trailing repetition of `pat`. An empty `pat` removes nothing.
pub open spec fn trim_end_pattern(s: Seq<char>, pat: Seq<char>) -> Seq<char>
    decreases s.len(),
{
    if pat.len() > 0 && ends_with(s, pat) {
        trim_end_pattern(s.subrange(0, s.len() - pat.len()), pat)
    } else {
        s
    }
}

/// `s` without every leading repetition of `pat`. An empty `pat` removes nothing.
pub open spec fn trim_start_pattern(s: Seq<char>, pat: Seq<char>) -> Seq<char>
    decreases s.len(),
{
    if pat.len() > 0 && starts_with(s, pat) {
        trim_start_pattern(s.subrange(pat.len() as int, s.len() as int), pat)
    } else {
        s
    }
}

/// `s` without its trailing run of the character `c`.
pub open spec fn trim_end_char(s: Seq<char>, c: char) -> Seq<char>
    decreases s.len(),
{
    if s.len() > 0 && s.last() == c {
        trim_end_char(s.drop_last(), c)
    } else {
        s
    }
}

/// `s` with every occurrence of `c` removed.
pub open spec fn without_char(s: Seq<char>, c: char) -> Seq<char>
    decreases s.len(),
{
    if s.len() == 0 {
        s
    } else if s.last() == c {
        without_char(s.drop_last(), c)
    } else {
        without_char(s.drop_last(), c).push(s.last())
    }
}

/// The lower-case form of an ASCII upper-case letter; any other character unchanged.
pub open spec fn ascii_lower(c: char) -> char {
    if 'A' <= c && c <= 'Z' {
        ((c as u8 + 32) as u8) as char
    } else {
        c
    }
}

/// `s` with each character mapped by [`ascii_lower`].
pub open spec fn ascii_lowercase(s: Seq<char>) -> Seq<char> {
    Seq::new(s.len(), |i: int| ascii_lower(s[i]))
}

/// The characters of `s`, in order.
pub fn chars_of(s: &str) -> (v: Vec<char>)
    ensures
        v@ == s@,
{
    let mut v: Vec<char> = Vec::new();
    for c in it: s.chars()
        invariant
            v@ == it.seq().take(it.index() as int),
            it.seq() == s@,
    {
        v.push(c);
    }
    v
}

/// Whether two strings hold the same characters.
pub fn str_eq(a: &str, b: &str) -> (r: bool)
    ensures
        r == (a@ == b@),
{
    let x = chars_of(a);
    let y = chars_of(b);
    chars_eq(&x, &y)
}

/// Whether two character vectors are equal.
pub(crate) fn chars_eq(a: &Vec<char>, b: &Vec<char>) -> (r: bool)
    ensures
        r == (a@ == b@),
{
    if a.len() != b.len() {
        return false;
    }
    let mut i: usize = 0;
    while i < a.len()
        invariant
            i <= a.len(),
            a.len() == b.len(),
            forall|k: int| 0 <= k < i ==> a@[k] == b@[k],
        decreases a.len() - i,
    {
        if a[i] != b[i] {
            return false;
        }
        i += 1;
    }
    assert(a@ =~= b@);
    true
}

/// Whether the first `len` characters of `s` end with `pat`.
pub(crate) fn prefix_ends_with(s: &Vec<char>, len: usize, pat: &Vec<char>) -> (r: bool)
    requires
        len <= s.len(),
    ensures
        r == ends_with(s@.take(len as int), pat@),
{
    if pat.len() > len {
        return false;
    }
    let base: usize = len - pat.len();
    let mut i: usize = 0;
    while i < pat.len()
        invariant
            i <= pat.len(),
            base + pat.len() == len,
            len <= s.len(),
            forall|k: int| 0 <= k < i ==> s@[base + k] == pat@[k],
        decreases pat.len() - i,
    {
        if s[base + i] != pat[i] {
            assert(s@.take(len as int).subrange(len - pat.len(), len as int)[i as int] != pat@[i as int]);
            return false;
        }
        i += 1;
    }
    assert(s@.take(len as int).subrange(len - pat.len(), len as int) =~= pat@);
    true
}

/// Whether the characters of `s` from `from` on start with `pat`.
pub(crate) fn suffix_starts_with(s: &Vec<char>, from: usize, pat: &Vec<char>) -> (r: bool)
    requires
        from <= s.len(),
    ensures
        r == starts_with(s@.skip(from as int), pat@),
{
    if pat.len() > s.len() - from {
        return false;
    }
    let mut i: usize = 0;
    while i < pat.len()
        invariant
            i <= pat.len(),
            from + pat.len() <= s.len(),
            forall|k: int| 0 <= k < i ==> s@[from + k] == pat@[k],
        decreases pat.len() - i,
    {
        if s[from + i] != pat[i] {
            assert(s@.skip(from as int).subrange(0, pat.len() as int)[i as int] != pat@[i as int]);
            return false;
        }
        i += 1;
    }
    assert(s@.skip(from as int).subrange(0, pat.len() as int) =~= pat@);
    true
}

/// The length of what [`trim_end_pattern`] leaves of the first `len` characters of `s`.
pub(crate) fn trimmed_end_pattern_len(s: &Vec<char>, len: usize, pat: &Vec<char>) -> (r: usize)
    requires
        len <= s.len(),
    ensures
        r <= len,
        s@.take(r as int) == trim_end_pattern(s@.take(len as int), pat@),
{
    let mut n: usize = len;
    if pat.len() == 0 {
        return n;
    }
    while prefix_ends_with(s, n, pat)
        invariant
            n <= len,
            len <= s.len(),
            pat.len() > 0,
            trim_end_pattern(s@.take(n as int), pat@) == trim_end_pattern(s@.take(len as int), pat@),
        decreases n,
    {
        assert(s@.take(n as int).subrange(0, n - pat.len()) =~= s@.take((n - pat.len()) as int));
        n = n - pat.len();
    }
    n
}

/// The length of what [`trim_end_char`] leaves of the first `len` characters of `s`.
pub(crate) fn trimmed_end_char_len(s: &Vec<char>, len: usize, c: char) -> (r: usize)
    requires
        len <= s.len(),
    ensures
        r <= len,
        s@.take(r as int) == trim_end_char(s@.take(len as int), c),
{
    let mut n: usize = len;
    while n > 0 && s[n - 1] == c
        invariant
            n <= len,
            len <= s.len(),
            trim_end_char(s@.take(n as int), c) == trim_end_char(s@.take(len as int), c),
        decreases n,
    {
        assert(s@.take(n as int).drop_last() =~= s@.take((n - 1) as int));
        n = n - 1;
    }
    n
}

/// The index from which [`trim_start_pattern`] keeps the characters of `s`.
pub(crate) fn trimmed_start_pattern_at(s: &Vec<char>, pat: &Vec<char>) -> (r: usize)
    ensures
        r <= s.len(),
        s@.skip(r as int) == trim_start_pattern(s@, pat@),
{
    let mut n: usize = 0;
    assert(s@.skip(0) =~= s@);
    if pat.len() == 0 {
        return n;
    }
    while suffix_starts_with(s, n, pat)
        invariant
            n <= s.len(),
            pat.len() > 0,
            trim_start_pattern(s@.skip(n as int), pat@) == trim_start_pattern(s@, pat@),
        decreases s.len() - n,
    {
        assert(s@.skip(n as int).subrange(pat.len() as int, s.len() - n) =~= s@.skip(
            (n + pat.len()) as int,
        ));
        n = n + pat.len();
    }
    n
}

/// The lower-case form of `c`, as [`ascii_lower`] defines it.
pub(crate) fn to_ascii_lower(c: char) -> (r: char)
    ensures
        r == ascii_lower(c),
{
    if 'A' <= c && c <= 'Z' {
        let b: u8 = c as u8;
        (b + 32) as char
    } else {
        c
    }
}

/// `a` stands before `b` in the order of strings: character by character,
/// by code point, a proper prefix before what it is a prefix of.
pub open spec fn name_lt(a: Seq<char>, b: Seq<char>) -> bool
    decreases a.len(),
{
    if b.len() == 0 {
        false
    } else if a.len() == 0 {
        true
    } else if a[0] == b[0] {
        name_lt(a.drop_first(), b.drop_first())
    } else {
        a[0] < b[0]
    }
}

/// No string stands before itself.
pub proof fn lemma_name_lt_irreflexive(a: Seq<char>)
    ensures
        !name_lt(a, a),
    decreases a.len(),
{
    if a.len() > 0 {
        lemma_name_lt_irreflexive(a.drop_first());
    }
}

/// The order of strings is transitive.
pub proof fn lemma_name_lt_transitive(a: Seq<char>, b: Seq<char>, c: Seq<char>)
    requires
        name_lt(a, b),
        name_lt(b, c),
    ensures
        name_lt(a, c),
    decreases a.len(),
{
    if a.len() > 0 && a[0] == b[0] && b[0] == c[0] {
        lemma_name_lt_transitive(a.drop_first(), b.drop_first(), c.drop_first());
    }
}

/// Of two different strings one stands before the other.
pub proof fn lemma_name_lt_total(a: Seq<char>, b: Seq<char>)
    ensures
        a == b || name_lt(a, b) || name_lt(b, a),
    decreases a.len(),
{
    if a.len() > 0 && b.len() > 0 && a[0] == b[0] {
        lemma_name_lt_total(a.drop_first(), b.drop_first());
        if a.drop_first() == b.drop_first() {
            assert(a =~= seq![a[0]] + a.drop_first());
            assert(b =~= seq![b[0]] + b.drop_first());
        }
    } else if a.len() == 0 && b.len() == 0 {
        assert(a =~= b);
    }
}

/// Whether `a` stands before `b` in the order of strings.
pub(crate) fn chars_less(a: &Vec<char>, b: &Vec<char>) -> (r: bool)
    ensures
        r == name_lt(a@, b@),
{
    let mut i: usize = 0;
    assert(a@.skip(0) =~= a@ && b@.skip(0) =~= b@);
    while i < a.len() && i < b.len()
        invariant
            i <= a.len(),
            i <= b.len(),
            name_lt(a@, b@) == name_lt(a@.skip(i as int), b@.skip(i as int)),
        decreases a.len() - i,
    {
        assert(a@.skip(i as int).drop_first() =~= a@.skip(i + 1));
        assert(b@.skip(i as int).drop_first() =~= b@.skip(i + 1));
        if a[i] != b[i] {
            return a[i] < b[i];
        }
        i += 1;
    }
    i < b.len()
}

/// `names` lists its strings in the order of strings, each once.
pub open spec fn increasing(names: Seq<Seq<char>>) -> bool {
    forall|i: int, j: int| 0 <= i < j < names.len() ==> name_lt(#[trigger] names[i], #[trigger] names[j])
}

/// `list` holds the strings of `names`, each once, in the order of strings.
pub open spec fn lists_in_order(list: Seq<Seq<char>>, names: Set<Seq<char>>) -> bool {
    increasing(list) && forall|name: Seq<char>| names.contains(name) <==> #[trigger] list.contains(name)
}

/// A finite set of strings that is not empty has a last one in the order of
/// strings.
pub proof fn lemma_last_name(names: Set<Seq<char>>)
    requires
        names.finite(),
        names.len() > 0,
    ensures
        exists|last: Seq<char>|
            names.contains(last) && forall|name: Seq<char>|
                names.contains(name) ==> name == last || #[trigger] name_lt(name, last),
    decreases names.len(),
{
    let one = names.choose();
    let rest = names.remove(one);
    if rest.len() == 0 {
        assert forall|name: Seq<char>| names.contains(name) implies name == one || #[trigger] name_lt(
            name,
            one,
        ) by {
            if name != one {
                assert(rest.contains(name));
            }
        }
    } else {
        lemma_last_name(rest);
        let before = choose|last: Seq<char>|
            rest.contains(last) && forall|name: Seq<char>|
                rest.contains(name) ==> name == last || #[trigger] name_lt(name, last);
        lemma_name_lt_total(before, one);
        let last = if name_lt(before, one) {
            one
        } else {
            before
        };
        assert forall|name: Seq<char>| names.contains(name) implies name == last || #[trigger] name_lt(
            name,
            last,
        ) by {
            if name != one {
                assert(rest.contains(name));
                if name != before && name_lt(before, one) {
                    assert(name_lt(name, before));
                    lemma_name_lt_transitive(name, before, one);
                }
            }
        }
    }
}

/// The strings of a finite set can be listed in the order of strings, each
/// once.
pub proof fn lemma_names_in_order(names: Set<Seq<char>>)
    requires
        names.finite(),
    ensures
        exists|list: Seq<Seq<char>>| lists_in_order(list, names),
    decreases names.len(),
{
    if names.len() == 0 {
        let list = Seq::<Seq<char>>::empty();
        assert(increasing(list));
        assert forall|name: Seq<char>| names.contains(name) <==> #[trigger] list.contains(name) by {
            if names.contains(name) {
                assert(names.remove(name).len() + 1 == names.len());
            }
        }
        assert(lists_in_order(list, names));
    } else {
        lemma_last_name(names);
        let last = choose|last: Seq<char>|
            names.contains(last) && forall|name: Seq<char>|
                names.contains(name) ==> name == last || #[trigger] name_lt(name, last);
        let rest = names.remove(last);
        lemma_names_in_order(rest);
        let front = choose|list: Seq<Seq<char>>| lists_in_order(list, rest);
        let list = front.push(last);
        assert forall|i: int, j: int| 0 <= i < j < list.len() implies name_lt(
            #[trigger] list[i],
            #[trigger] list[j],
        ) by {
            if j == front.len() {
                assert(front.contains(front[i]));
                assert(rest.contains(list[i]));
            } else {
                assert(name_lt(front[i], front[j]));
            }
        }
        assert forall|name: Seq<char>| names.contains(name) <==> #[trigger] list.contains(name) by {
            if names.contains(name) {
                if name == last {
                    assert(list[front.len() as int] == name);
                } else {
                    assert(rest.contains(name));
                    assert(front.contains(name));
                    let i = choose|i: int| 0 <= i < front.len() && front[i] == name;
                    assert(list[i] == name);
                }
            }
            if list.contains(name) {
                let i = choose|i: int| 0 <= i < list.len() && list[i] == name;
                if i < front.len() {
                    assert(front.contains(front[i]));
                }
            }
        }
        assert(lists_in_order(list, names));
    }
}

} // verus!
